//! `SparSet`: a set of small unsigned keys built on a sparse/dense pair of
//! arrays, with O(1) insert, delete and lookup and iteration in dense order.
use vstd::prelude::*;
use vstd::relations::injective_on;
use vstd::set_lib::*;

verus! {

/// Key type of the sparse containers.
pub type Key = u16;

/// Largest capacity a container can be created with.
pub const MAX_K: usize = 65535;

/// A set of keys `k <= N` where `N` is the capacity chosen at construction.
///
/// `sparse[k]` is the dense position of a member `k`; `dense[0..len]` lists the
/// members. A slot of `sparse` that belongs to no member may hold any value.
#[derive(Clone)]
pub struct SparSet {
    len: u16,
    sparse: Vec<u16>,
    dense: Vec<u16>,
}

impl View for SparSet {
    type V = Seq<u16>;

    /// The members, in dense order.
    closed spec fn view(&self) -> Seq<u16> {
        self.dense@.subrange(0, self.len as int)
    }
}

impl SparSet {
    /// The sparse buffer.
    pub closed spec fn spec_sparse(&self) -> Seq<u16> {
        self.sparse@
    }

    /// The dense buffer.
    pub closed spec fn spec_dense(&self) -> Seq<u16> {
        self.dense@
    }

    /// The member count.
    pub closed spec fn spec_len(&self) -> nat {
        self.len as nat
    }

    /// Number of key slots: keys below it can be stored (capacity plus one).
    pub closed spec fn slots(&self) -> nat {
        self.sparse@.len()
    }

    /// The members as a set.
    pub open spec fn keys(&self) -> Set<u16> {
        self@.to_set()
    }

    /// Layout invariant: every dense entry below `len` is a key slot whose
    /// sparse entry points back at it.
    pub closed spec fn wf(&self) -> bool {
        &&& self.sparse@.len() == self.dense@.len()
        &&& 1 <= self.sparse@.len() <= MAX_K + 1
        &&& self.len as int <= self.dense@.len()
        &&& forall|i: int|
            0 <= i < self.len ==> (#[trigger] self.dense@[i]) < self.sparse@.len()
                && self.sparse@[self.dense@[i] as int] == i
    }

    proof fn lemma_view(&self)
        requires
            self.wf(),
        ensures
            self@.len() == self.len,
            forall|i: int| 0 <= i < self.len ==> #[trigger] self@[i] == self.dense@[i],
            forall|i: int| 0 <= i < self.len ==> #[trigger] self@[i] < self.slots(),
            self@.no_duplicates(),
            self.keys().finite(),
            self.keys().len() == self@.len(),
            forall|k: u16| #[trigger] self@.contains(k) <==> (k < self.slots()
                && self.sparse@[k as int] < self.len && self.dense@[self.sparse@[k as int] as int]
                == k),
    {
        assert forall|i: int, j: int| 0 <= i < self@.len() && 0 <= j < self@.len() && i != j
            implies self@[i] != self@[j] by {
            assert(self@[i] == self.dense@[i]);
            assert(self@[j] == self.dense@[j]);
        }
        self@.unique_seq_to_set();
        assert forall|k: u16| #[trigger] self@.contains(k) <==> (k < self.slots()
            && self.sparse@[k as int] < self.len && self.dense@[self.sparse@[k as int] as int]
            == k) by {
            if self@.contains(k) {
                let i = choose|i: int| 0 <= i < self@.len() && self@[i] == k;
                assert(self.dense@[i] == k);
            }
            if k < self.slots() && self.sparse@[k as int] < self.len
                && self.dense@[self.sparse@[k as int] as int] == k {
                assert(self@[self.sparse@[k as int] as int] == k);
            }
        }
    }

    /// The members are distinct key slots, so the member count is the size of
    /// the key set.
    pub proof fn lemma_keys(&self)
        requires
            self.wf(),
        ensures
            self@.no_duplicates(),
            self.keys().finite(),
            self.keys().len() == self@.len(),
            self@.len() <= self.slots(),
            self.slots() <= MAX_K + 1,
            forall|i: int| 0 <= i < self@.len() ==> #[trigger] self@[i] < self.slots(),
    {
        self.lemma_view();
    }

    /// The members are the dense entries below `len`, in order, and a key
    /// is a member exactly when it is a key slot whose sparse entry is below
    /// `len` and names a dense entry holding the key.
    pub proof fn lemma_members(&self)
        requires
            self.wf(),
        ensures
            self@ == self.spec_dense().subrange(0, self.spec_len() as int),
            self.spec_len() <= self.spec_dense().len(),
            self.spec_sparse().len() == self.spec_dense().len() == self.slots(),
            forall|k: u16| #[trigger] self@.contains(k) <==> (k < self.slots()
                && self.spec_sparse()[k as int] < self.spec_len() && self.spec_dense()[self.spec_sparse()[k as int] as int]
                == k),
    {
        self.lemma_view();
    }

    /// Every member's sparse entry is a dense position below `len` that holds
    /// the member.
    pub proof fn lemma_member_slots(&self, k: u16)
        requires
            self.wf(),
            self@.contains(k),
        ensures
            k < self.spec_sparse().len(),
            self.spec_sparse()[k as int] < self.spec_len(),
            self.spec_dense()[self.spec_sparse()[k as int] as int] == k,
    {
        self.lemma_view();
    }

    /// Every dense position below `len` holds a key whose sparse entry points
    /// back at that position.
    pub proof fn lemma_dense_slots(&self, i: int)
        requires
            self.wf(),
            0 <= i < self.spec_len(),
        ensures
            self.spec_dense()[i] < self.spec_sparse().len(),
            self.spec_sparse()[self.spec_dense()[i] as int] == i,
    {
    }

    /// Creates an empty set whose keys may range over `0..=n`.
    #[allow(non_snake_case)]
    pub fn new(N: usize) -> (r: SparSet)
        requires
            N <= MAX_K,
        ensures
            r.wf(),
            r@ == Seq::<u16>::empty(),
            r.slots() == N + 1,
    {
        let mut sparse: Vec<u16> = Vec::new();
        let mut dense: Vec<u16> = Vec::new();
        let mut i: usize = 0;
        while i <= N
            invariant
                i <= N + 1,
                N <= MAX_K,
                sparse@.len() == i,
                dense@.len() == i,
            decreases N + 1 - i,
        {
            sparse.push(0);
            dense.push(0);
            i = i + 1;
        }
        let r = SparSet { len: 0, sparse, dense };
        assert(r@ =~= Seq::<u16>::empty());
        r
    }

    /// Number of members.
    pub fn len(&self) -> (r: u16)
        requires
            self.wf(),
        ensures
            r == self@.len(),
    {
        proof {
            self.lemma_view();
        }
        self.len
    }

    /// Whether the set has no member.
    pub fn is_empty(&self) -> (r: bool)
        requires
            self.wf(),
        ensures
            r == (self@.len() == 0),
    {
        proof {
            self.lemma_view();
        }
        self.len == 0
    }

    /// The members in dense order.
    pub fn as_slice(&self) -> (r: &[u16])
        requires
            self.wf(),
        ensures
            r@ == self@,
    {
        vstd::slice::slice_subrange(self.dense.as_slice(), 0, self.len as usize)
    }

    /// Whether `k` is a member; a key beyond the capacity is simply absent.
    pub fn contains(&self, k: u16) -> (r: bool)
        requires
            self.wf(),
        ensures
            r == self@.contains(k),
    {
        proof {
            self.lemma_view();
        }
        if (k as usize) < self.sparse.len() {
            let x = self.sparse[k as usize];
            x < self.len && self.dense[x as usize] == k
        } else {
            false
        }
    }

    /// Dense position of `k`, if it is a member.
    pub fn as_index_one(&self, k: u16) -> (r: Option<u16>)
        requires
            self.wf(),
        ensures
            match r {
                Some(i) => i < self@.len() && self@[i as int] == k,
                None => !self@.contains(k),
            },
    {
        proof {
            self.lemma_view();
        }
        if self.contains(k) {
            Some(self.sparse[k as usize])
        } else {
            None
        }
    }

    /// Removes every member.
    pub fn clear(&mut self)
        requires
            old(self).wf(),
        ensures
            final(self).wf(),
            final(self).slots() == old(self).slots(),
            final(self)@ == Seq::<u16>::empty(),
    {
        self.len = 0;
        proof {
            assert(self@ =~= Seq::<u16>::empty());
        }
    }

    /// Inserts each key of `ks` in turn.
    pub fn insert_all(&mut self, ks: &[u16])
        requires
            old(self).wf(),
            forall|i: int| 0 <= i < ks@.len() ==> #[trigger] ks@[i] < old(self).slots(),
            inserted(old(self)@, ks@).len() <= MAX_K,
        ensures
            final(self).wf(),
            final(self).slots() == old(self).slots(),
            final(self)@ == inserted(old(self)@, ks@),
            final(self).keys() == old(self).keys() + ks@.to_set(),
    {
        let mut i: usize = 0;
        while i < ks.len()
            invariant
                self.wf(),
                self.slots() == old(self).slots(),
                i <= ks@.len(),
                forall|j: int| 0 <= j < ks@.len() ==> #[trigger] ks@[j] < old(self).slots(),
                inserted(old(self)@, ks@).len() <= MAX_K,
                self@ == inserted(old(self)@, ks@.subrange(0, i as int)),
                self.keys() == old(self).keys() + ks@.subrange(0, i as int).to_set(),
            decreases ks@.len() - i,
        {
            let k = ks[i];
            proof {
                lemma_inserted_prefix(old(self)@, ks@, i + 1);
                let p = ks@.subrange(0, i + 1);
                assert(p.drop_last() =~= ks@.subrange(0, i as int));
                assert(p.last() == k);
                self.lemma_view();
            }
            let ghost prev = self@;
            self.insert_one(k);
            proof {
                let p = ks@.subrange(0, i + 1);
                assert(seq![k].drop_last() =~= Seq::<u16>::empty());
                assert(seq![k].last() == k);
                assert(inserted(prev, seq![k].drop_last()) == prev);
                assert(p.drop_last() =~= ks@.subrange(0, i as int));
                assert(p.last() == k);
                assert(p.to_set() =~= ks@.subrange(0, i as int).to_set().insert(k)) by {
                    assert(p =~= ks@.subrange(0, i as int).push(k));
                    ks@.subrange(0, i as int).lemma_push_to_set_commute(k);
                }
                assert(self.keys() =~= old(self).keys() + p.to_set());
                assert(inserted(old(self)@, seq![k].drop_last()) =~= old(self)@);
            }
            i = i + 1;
        }
        proof {
            assert(ks@.subrange(0, ks@.len() as int) =~= ks@);
        }
    }

    /// Deletes each key of `ks` in turn.
    pub fn delete_all(&mut self, ks: &[u16])
        requires
            old(self).wf(),
        ensures
            final(self).wf(),
            final(self).slots() == old(self).slots(),
            final(self)@ == deleted(old(self)@, ks@),
            final(self).keys() == old(self).keys() - ks@.to_set(),
    {
        let mut i: usize = 0;
        while i < ks.len()
            invariant
                self.wf(),
                self.slots() == old(self).slots(),
                i <= ks@.len(),
                self@ == deleted(old(self)@, ks@.subrange(0, i as int)),
                self.keys() == old(self).keys() - ks@.subrange(0, i as int).to_set(),
            decreases ks@.len() - i,
        {
            let k = ks[i];
            self.delete_one(k);
            proof {
                let p = ks@.subrange(0, i + 1);
                assert(p.drop_last() =~= ks@.subrange(0, i as int));
                assert(p.last() == k);
                assert(p.to_set() =~= ks@.subrange(0, i as int).to_set().insert(k)) by {
                    assert(p =~= ks@.subrange(0, i as int).push(k));
                    ks@.subrange(0, i as int).lemma_push_to_set_commute(k);
                }
                assert(self.keys() =~= old(self).keys() - p.to_set());
            }
            i = i + 1;
        }
        proof {
            assert(ks@.subrange(0, ks@.len() as int) =~= ks@);
        }
    }

    /// Keeps the members on which `f` holds, walking the dense order and
    /// swap-removing the others in place.
    pub fn retain<F: Fn(u16) -> bool>(&mut self, f: F)
        requires
            old(self).wf(),
            forall|k: u16| #[trigger] f.requires((k,)),
        ensures
            final(self).wf(),
            final(self).slots() == old(self).slots(),
            final(self).keys().subset_of(old(self).keys()),
            forall|k: u16| #[trigger]
                final(self).keys().contains(k) ==> f.ensures((k,), true),
            forall|k: u16|
                old(self).keys().contains(k) && !(#[trigger] final(self).keys().contains(k))
                    ==> f.ensures((k,), false),
            (forall|k: u16, b: bool| #[trigger] f.ensures((k,), b) ==> b) ==> final(self)@ == old(self)@,
            (forall|k: u16, b: bool| #[trigger] f.ensures((k,), b) ==> !b) ==> final(self)@.len()
                == 0,
    {
        let mut i: usize = 0;
        while i < self.len as usize
            invariant
                self.wf(),
                self.slots() == old(self).slots(),
                i <= self@.len(),
                forall|k: u16| #[trigger] f.requires((k,)),
                self.keys().subset_of(old(self).keys()),
                forall|j: int| 0 <= j < i ==> f.ensures((#[trigger] self@[j],), true),
                forall|k: u16|
                    old(self).keys().contains(k) && !(#[trigger] self.keys().contains(k))
                        ==> f.ensures((k,), false),
                (forall|k: u16, b: bool| #[trigger] f.ensures((k,), b) ==> b) ==> self@ == old(self)@,
            decreases self@.len() - i,
        {
            proof {
                self.lemma_view();
            }
            let k = self.dense[i];
            let keep = f(k);
            if keep {
                i = i + 1;
            } else {
                let ghost prev = *self;
                proof {
                    assert(prev@[i as int] == k);
                    assert(prev@.contains(k));
                }
                self.delete_one_seq_uncheck(k);
                proof {
                    prev.lemma_view();
                    assert(prev.sparse@[k as int] == i);
                    assert forall|j: int| 0 <= j < i implies f.ensures((#[trigger] self@[j],), true)
                        by {
                        assert(self@[j] == prev@[j]);
                    }
                }
            }
        }
        proof {
            self.lemma_view();
            assert forall|k: u16| #[trigger] self.keys().contains(k) implies f.ensures((k,), true)
                by {
                let j = choose|j: int| 0 <= j < self@.len() && self@[j] == k;
            }
            if self@.len() > 0 {
                assert(f.ensures((self@[0],), true));
            }
        }
    }

    /// Removes the members on which `f` holds and returns them in the order
    /// they were removed.
    pub fn recall<F: Fn(u16) -> bool>(&mut self, f: F) -> (r: Vec<u16>)
        requires
            old(self).wf(),
            forall|k: u16| #[trigger] f.requires((k,)),
        ensures
            final(self).wf(),
            final(self).slots() == old(self).slots(),
            final(self).keys().subset_of(old(self).keys()),
            r@.no_duplicates(),
            r@.to_set() == old(self).keys() - final(self).keys(),
            forall|k: u16| #[trigger]
                final(self).keys().contains(k) ==> f.ensures((k,), false),
            forall|k: u16| #[trigger] r@.contains(k) ==> f.ensures((k,), true),
            (forall|k: u16, b: bool| #[trigger] f.ensures((k,), b) ==> !b) ==> final(self)@ == old(self)@ && r@.len() == 0,
            (forall|k: u16, b: bool| #[trigger] f.ensures((k,), b) ==> b) ==> final(self)@.len()
                == 0 && r@.to_set() == old(self).keys(),
    {
        let mut out: Vec<u16> = Vec::new();
        let mut i: usize = 0;
        while i < self.len as usize
            invariant
                self.wf(),
                self.slots() == old(self).slots(),
                i <= self@.len(),
                forall|k: u16| #[trigger] f.requires((k,)),
                self.keys().subset_of(old(self).keys()),
                forall|j: int| 0 <= j < i ==> f.ensures((#[trigger] self@[j],), false),
                out@.no_duplicates(),
                out@.to_set() == old(self).keys() - self.keys(),
                forall|k: u16| #[trigger] out@.contains(k) ==> f.ensures((k,), true),
                (forall|k: u16, b: bool| #[trigger] f.ensures((k,), b) ==> !b) ==> self@ == old(self)@ && out@.len() == 0,
            decreases self@.len() - i,
        {
            proof {
                self.lemma_view();
            }
            let k = self.dense[i];
            let take = f(k);
            if !take {
                i = i + 1;
            } else {
                let ghost prev = *self;
                let ghost prev_out = out@;
                proof {
                    assert(prev@[i as int] == k);
                    assert(prev@.contains(k));
                }
                self.delete_one_seq_uncheck(k);
                out.push(k);
                proof {
                    prev.lemma_view();
                    assert(prev.sparse@[k as int] == i);
                    assert forall|j: int| 0 <= j < i implies f.ensures((#[trigger] self@[j],), false)
                        by {
                        assert(self@[j] == prev@[j]);
                    }
                    assert(!prev_out.contains(k)) by {
                        if prev_out.contains(k) {
                            assert(prev_out.to_set().contains(k));
                        }
                    }
                    prev_out.lemma_push_to_set_commute(k);
                    assert(out@.to_set() =~= old(self).keys() - self.keys());
                    assert forall|a: int, b: int| 0 <= a < out@.len() && 0 <= b < out@.len() && a != b
                        implies out@[a] != out@[b] by {
                        if b == out@.len() - 1 {
                            assert(prev_out.contains(out@[a]) || a == b);
                        }
                        if a == out@.len() - 1 {
                            assert(prev_out.contains(out@[b]) || a == b);
                        }
                    }
                    assert forall|x: u16| #[trigger] out@.contains(x) implies f.ensures((x,), true)
                        by {
                        if x != k {
                            let j = choose|j: int| 0 <= j < out@.len() && out@[j] == x;
                            assert(prev_out[j] == x);
                            assert(prev_out.contains(x));
                        }
                    }
                }
            }
        }
        proof {
            self.lemma_view();
            assert forall|k: u16| #[trigger] self.keys().contains(k) implies f.ensures((k,), false)
                by {
                let j = choose|j: int| 0 <= j < self@.len() && self@[j] == k;
            }
            if self@.len() > 0 {
                assert(f.ensures((self@[0],), false));
            }
            if forall|k: u16, b: bool| #[trigger] f.ensures((k,), b) ==> b {
                assert(self.keys() =~= Set::<u16>::empty());
                assert(out@.to_set() =~= old(self).keys());
            }
        }
        out
    }

    /// The set stored as `len`, `sparse` and `dense`, when they are
    /// consistent: equally long buffers of at most `MAX_K + 1` slots, `len` at
    /// most their length, and every dense entry below `len` a key slot whose
    /// sparse entry points back at it. Sparse slots of non-members may hold
    /// anything.
    pub fn from_raw(len: u16, sparse: Vec<u16>, dense: Vec<u16>) -> (r: Option<SparSet>)
        ensures
            r is Some <==> {
                &&& sparse@.len() == dense@.len()
                &&& 1 <= sparse@.len() <= MAX_K + 1
                &&& len as int <= dense@.len()
                &&& forall|i: int|
                    0 <= i < len ==> (#[trigger] dense@[i]) < sparse@.len() && sparse@[dense@[i] as int] == i
            },
            r matches Some(s) ==> s.wf() && s.spec_len() == len && s.spec_sparse() == sparse@
                && s.spec_dense() == dense@,
    {
        if sparse.len() != dense.len() || sparse.len() < 1 || sparse.len() > MAX_K + 1 || len as usize
            > dense.len() {
            return None;
        }
        let mut i: usize = 0;
        while i < len as usize
            invariant
                sparse@.len() == dense@.len(),
                len as int <= dense@.len(),
                i <= len,
                forall|j: int|
                    0 <= j < i ==> (#[trigger] dense@[j]) < sparse@.len() && sparse@[dense@[j] as int] == j,
            decreases len - i,
        {
            let d = dense[i];
            if d as usize >= sparse.len() || sparse[d as usize] as usize != i {
                return None;
            }
            i = i + 1;
        }
        Some(SparSet { len, sparse, dense })
    }

    /// The stored parts: the member count, the sparse buffer and the dense
    /// buffer.
    pub fn raw_parts(&self) -> (r: (u16, &[u16], &[u16]))
        ensures
            r.0 == self.spec_len(),
            r.1@ == self.spec_sparse(),
            r.2@ == self.spec_dense(),
    {
        (self.len, self.sparse.as_slice(), self.dense.as_slice())
    }

    /// A key of a slot that is not a member leaves room for one more member.
    proof fn lemma_room(&self, k: u16)
        requires
            self.wf(),
            k < self.slots(),
            !self@.contains(k),
        ensures
            self.len < self.slots(),
    {
        self.lemma_view();
        let n = self.slots() as int;
        let idx = set_int_range(0, self.len as int);
        let f = |i: int| self.dense@[i] as int;
        lemma_int_range(0, self.len as int);
        lemma_int_range(0, n);
        assert(injective_on(f, idx)) by {
            assert forall|i: int, j: int| idx.contains(i) && idx.contains(j) && f(i) == f(j)
                implies i == j by {
                assert(self.sparse@[self.dense@[i] as int] == i);
                assert(self.sparse@[self.dense@[j] as int] == j);
            }
        }
        lemma_map_size(idx, idx.map(f), f);
        let room = set_int_range(0, n).remove(k as int);
        assert(idx.map(f).subset_of(room)) by {
            assert forall|x: int| idx.map(f).contains(x) implies room.contains(x) by {
                let i = choose|i: int| idx.contains(i) && f(i) == x;
                assert(self@[i] == self.dense@[i]);
                assert(self@.contains(self@[i]));
            }
        }
        lemma_len_subset(idx.map(f), room);
    }

    /// Adds `k`; returns whether it was absent. The new member goes last.
    pub fn insert_one(&mut self, k: u16) -> (r: bool)
        requires
            old(self).wf(),
            k < old(self).slots(),
            old(self)@.len() < MAX_K || old(self)@.contains(k),
        ensures
            final(self).wf(),
            final(self).slots() == old(self).slots(),
            r == !old(self)@.contains(k),
            final(self)@ == inserted(old(self)@, seq![k]),
            final(self).keys() == old(self).keys().insert(k),
    {
        proof {
            self.lemma_view();
            assert(seq![k].drop_last() =~= Seq::<u16>::empty());
        }
        let cond = !self.contains(k);
        if cond {
            proof {
                self.lemma_room(k);
            }
            self.insert_one_seq_uncheck(k);
        }
        proof {
            self.lemma_view();
            assert(seq![k].last() == k);
            assert(inserted(old(self)@, seq![k].drop_last()) == old(self)@);
            assert(old(self)@.contains(k) ==> old(self).keys().insert(k) =~= old(self).keys());
            assert(!old(self)@.contains(k) ==> self.keys() =~= old(self).keys().insert(k)) by {
                if !old(self)@.contains(k) {
                    assert forall|x: u16| self.keys().contains(x) <==> old(self).keys().insert(
                        k,
                    ).contains(x) by {
                        if self@.contains(x) {
                            let i = choose|i: int| 0 <= i < self@.len() && self@[i] == x;
                            if i < old(self)@.len() {
                                assert(old(self)@[i] == x);
                            }
                        }
                        if old(self)@.contains(x) {
                            let i = choose|i: int| 0 <= i < old(self)@.len() && old(self)@[i] == x;
                            assert(self@[i] == x);
                        }
                        if x == k {
                            assert(self@[self@.len() - 1] == k);
                        }
                    }
                }
            }
        }
        cond
    }

    fn insert_one_seq_uncheck(&mut self, k: u16)
        requires
            old(self).wf(),
            k < old(self).slots(),
            !old(self)@.contains(k),
            old(self).len < old(self).slots(),
            old(self)@.len() < MAX_K,
        ensures
            final(self).wf(),
            final(self).slots() == old(self).slots(),
            final(self)@ == old(self)@.push(k),
    {
        let l = self.len;
        self.sparse.set(k as usize, l);
        self.dense.set(l as usize, k);
        self.len = l + 1;
        proof {
            assert forall|i: int| 0 <= i < self.len implies (#[trigger] self.dense@[i])
                < self.sparse@.len() && self.sparse@[self.dense@[i] as int] == i by {
                if i < l {
                    assert(old(self).dense@[i] == self.dense@[i]);
                    assert(old(self)@[i] == self.dense@[i]);
                    assert(self.dense@[i] != k);
                }
            }
            assert(self@ =~= old(self)@.push(k));
        }
    }

    /// Removes the member `k` by swap-and-pop.
    fn delete_one_seq_uncheck(&mut self, k: u16)
        requires
            old(self).wf(),
            old(self)@.contains(k),
        ensures
            final(self).wf(),
            final(self).slots() == old(self).slots(),
            final(self)@ == swap_removed(old(self)@, k),
            final(self).keys() == old(self).keys().remove(k),
            old(self).sparse@[k as int] < old(self)@.len(),
            old(self)@[old(self).sparse@[k as int] as int] == k,
            final(self)@ == old(self)@.update(
                old(self).sparse@[k as int] as int,
                old(self)@.last(),
            ).drop_last(),
            final(self)@.len() == old(self)@.len() - 1,
    {
        proof {
            self.lemma_view();
        }
        let s = self.sparse[k as usize];
        let l = self.len - 1;
        self.len = l;
        let last = self.dense[l as usize];
        self.sparse.set(last as usize, s);
        self.dense.set(s as usize, last);
        proof {
            let o = old(self)@;
            assert(o[s as int] == k);
            assert(o.index_of(k) == s as int) by {
                assert(o.contains(k));
            }
            assert forall|i: int| 0 <= i < self.len implies (#[trigger] self.dense@[i])
                < self.sparse@.len() && self.sparse@[self.dense@[i] as int] == i by {
                if i != s {
                    assert(old(self).dense@[i] == self.dense@[i]);
                    assert(old(self).sparse@[old(self).dense@[i] as int] == i);
                    assert(old(self).sparse@[old(self).dense@[l as int] as int] == l);
                }
            }
            assert(self@ =~= o.update(s as int, o.last()).drop_last());
            self.lemma_view();
            assert forall|x: u16| self.keys().contains(x) <==> old(self).keys().remove(k).contains(x)
                by {
                if self@.contains(x) {
                    let i = choose|i: int| 0 <= i < self@.len() && self@[i] == x;
                    if i == s {
                        assert(o[l as int] == x);
                    } else {
                        assert(o[i] == x);
                    }
                }
                if o.contains(x) && x != k {
                    let i = choose|i: int| 0 <= i < o.len() && o[i] == x;
                    if i == l {
                        assert(self@[s as int] == x);
                    } else {
                        assert(self@[i] == x);
                    }
                }
            }
            assert(self.keys() =~= old(self).keys().remove(k));
        }
    }

    /// Removes `k`; returns whether it was a member.
    pub fn delete_one(&mut self, k: u16) -> (r: bool)
        requires
            old(self).wf(),
        ensures
            final(self).wf(),
            final(self).slots() == old(self).slots(),
            r == old(self)@.contains(k),
            final(self)@ == swap_removed(old(self)@, k),
            final(self).keys() == old(self).keys().remove(k),
            old(self)@.contains(k) ==> final(self)@ == old(self)@.update(
                old(self).spec_sparse()[k as int] as int,
                old(self)@.last(),
            ).drop_last(),
    {
        let cond = self.contains(k);
        if cond {
            self.delete_one_seq_uncheck(k);
        } else {
            proof {
                assert(self.keys() =~= old(self).keys().remove(k));
            }
        }
        cond
    }
}

/// Inserting a prefix of `ks` gives no more members than inserting all of it.
pub proof fn lemma_inserted_prefix(s: Seq<u16>, ks: Seq<u16>, j: int)
    requires
        0 <= j <= ks.len(),
    ensures
        inserted(s, ks.subrange(0, j)).len() <= inserted(s, ks).len(),
    decreases ks.len(),
{
    if j == ks.len() {
        assert(ks.subrange(0, j) =~= ks);
    } else {
        lemma_inserted_prefix(s, ks.drop_last(), j);
        assert(ks.drop_last().subrange(0, j) =~= ks.subrange(0, j));
    }
}

/// Sequential insertion of `ks` into the member sequence `s`: each key not
/// yet present is appended.
pub open spec fn inserted(s: Seq<u16>, ks: Seq<u16>) -> Seq<u16>
    decreases ks.len(),
{
    if ks.len() == 0 {
        s
    } else {
        let pre = inserted(s, ks.drop_last());
        if pre.contains(ks.last()) {
            pre
        } else {
            pre.push(ks.last())
        }
    }
}

/// The member sequence after `k` is removed by swap-and-pop: the last member
/// takes the slot of `k`.
pub open spec fn swap_removed(s: Seq<u16>, k: u16) -> Seq<u16> {
    if s.contains(k) {
        s.update(s.index_of(k), s.last()).drop_last()
    } else {
        s
    }
}

/// Sequential removal of `ks` from the member sequence `s`.
pub open spec fn deleted(s: Seq<u16>, ks: Seq<u16>) -> Seq<u16>
    decreases ks.len(),
{
    if ks.len() == 0 {
        s
    } else {
        swap_removed(deleted(s, ks.drop_last()), ks.last())
    }
}

} // verus!
