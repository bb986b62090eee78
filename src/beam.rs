//! A fixed-width beam search: each branch keeps one head node; a cycle expands
//! every head and keeps its best-scoring successor.
use vstd::prelude::*;

verus! {

/// Why a search step could not proceed.
#[derive(Debug, Clone, Copy, PartialEq, Eq, Structural)]
pub enum BeamError {
    /// One branch has no successor.
    BranchExhausted,
    /// No branch of the beam has a successor.
    Exhausted,
}

/// What the beam needs of its nodes.
pub trait Node: Sized {
    /// Whether the node is a goal state.
    spec fn spec_fulfilled(&self) -> bool;

    /// The node's score; lower is better.
    spec fn spec_evaluate(&self) -> u64;

    /// Whether the node's score can be formed.
    spec fn spec_evaluable(&self) -> bool;

    /// Whether the node is the placeholder that fills unused branches.
    spec fn spec_blank(&self) -> bool;

    /// Whether `next` is one step of progress from `self`.
    spec fn spec_step(&self, next: &Self) -> bool;

    /// Whether the two nodes hold the same state.
    spec fn spec_same(&self, other: &Self) -> bool;

    /// The successors that `expand(width, pool)` produces, up to `spec_same`,
    /// or the error it reports.
    spec fn spec_expand(&self, width: usize, pool: usize) -> Result<Seq<Self>, BeamError>;

    /// Whether `next` is what `inflate` makes of `self`.
    spec fn spec_inflate(&self, next: &Self) -> bool;

    /// The branch-count hint of `estimate(pool)`.
    spec fn spec_estimate(&self, pool: usize) -> Option<usize>;

    /// Nodes that hold the same state score alike, are goals alike, and are
    /// blank alike.
    proof fn lemma_same(&self, other: &Self)
        requires
            self.spec_same(other),
        ensures
            self.spec_evaluate() == other.spec_evaluate(),
            self.spec_evaluable() == other.spec_evaluable(),
            self.spec_fulfilled() == other.spec_fulfilled(),
            self.spec_blank() == other.spec_blank(),
    ;

    /// Whether the node is a goal state.
    fn has_fulfilled(&self) -> (r: bool)
        ensures
            r == self.spec_fulfilled(),
    ;

    /// At most `width` successors, built with a candidate pool of size `pool`,
    /// or `BranchExhausted` when there is none.
    fn expand(&self, width: usize, pool: usize) -> (r: Result<Vec<Self>, BeamError>)
        ensures
            match r {
                Ok(v) => {
                    &&& self.spec_expand(width, pool) matches Ok(s)
                    &&& s.len() == v@.len()
                    &&& v@.len() <= width
                    &&& forall|i: int|
                        0 <= i < v@.len() ==> self.spec_step(#[trigger] &v@[i]) && v@[i].spec_same(&s[i])
                },
                Err(e) => e == BeamError::BranchExhausted && self.spec_expand(width, pool) == Err::<
                    Seq<Self>,
                    BeamError,
                >(e),
            },
    ;

    /// The node's score; lower is better.
    fn evaluate(&self) -> (r: u64)
        requires
            self.spec_evaluable(),
        ensures
            r == self.spec_evaluate(),
    ;

    /// Enlarges the node's workspace so that a search that ran out of
    /// successors can go on.
    fn inflate(&mut self)
        ensures
            old(self).spec_inflate(&*final(self)),
    ;

    /// A hint for how many branches the root should seed.
    fn estimate(&self, pool: usize) -> (r: Option<usize>)
        ensures
            r == self.spec_estimate(pool),
    ;

    /// The placeholder node.
    fn blank() -> (r: Self)
        ensures
            r.spec_blank(),
    ;
}

/// The scores of `s`.
pub open spec fn scores<T: Node>(s: Seq<T>) -> Seq<u64> {
    s.map_values(|n: T| n.spec_evaluate())
}

/// Position of the first minimum among the first `k` scores.
pub open spec fn first_min_upto(s: Seq<u64>, k: int) -> int
    decreases k,
{
    if k <= 1 {
        0
    } else {
        let b = first_min_upto(s, k - 1);
        if s[k - 1] < s[b] {
            k - 1
        } else {
            b
        }
    }
}

/// Position of the first minimum of `s`.
pub open spec fn first_min(s: Seq<u64>) -> int {
    first_min_upto(s, s.len() as int)
}

/// Position of the first successor of minimal score.
pub fn select_best<T: Node>(succ: &Vec<T>) -> (r: usize)
    requires
        succ@.len() > 0,
        forall|j: int| 0 <= j < succ@.len() ==> (#[trigger] succ@[j]).spec_evaluable(),
    ensures
        r < succ@.len(),
        r == first_min(scores(succ@)),
        forall|j: int| 0 <= j < succ@.len() ==> succ@[r as int].spec_evaluate() <= #[trigger] succ@[j].spec_evaluate(),
        forall|j: int| 0 <= j < r ==> succ@[r as int].spec_evaluate() < #[trigger] succ@[j].spec_evaluate(),
{
    let mut best: usize = 0;
    let mut score = succ[0].evaluate();
    let mut i: usize = 1;
    while i < succ.len()
        invariant
            1 <= i <= succ@.len(),
            best < i,
            score == succ@[best as int].spec_evaluate(),
            forall|j: int| 0 <= j < i ==> score <= #[trigger] succ@[j].spec_evaluate(),
            forall|j: int| 0 <= j < best ==> score < #[trigger] succ@[j].spec_evaluate(),
            best == first_min_upto(scores(succ@), i as int),
            forall|j: int| 0 <= j < succ@.len() ==> (#[trigger] succ@[j]).spec_evaluable(),
        decreases succ@.len() - i,
    {
        let s = succ[i].evaluate();
        if s < score {
            best = i;
            score = s;
        }
        i = i + 1;
    }
    best
}

/// A beam of `W` branches at most over nodes of type `T`; `B` is the candidate
/// pool size handed to the nodes.
pub struct Beam<const W: usize, const B: usize, T> {
    heads: Vec<T>,
}

/// Every node of `s` from position `c` on is blank.
pub open spec fn blank_from<T: Node>(s: Seq<T>, c: int) -> bool {
    forall|i: int| c <= i < s.len() ==> (#[trigger] s[i]).spec_blank()
}

/// The branch count chosen for a root that estimates `est`: the estimate
/// clipped to `[1, W]`, or `W` without one.
pub open spec fn branch_count(est: Option<usize>, w: usize) -> usize {
    match est {
        Some(k) => if k < 1 {
            1
        } else if k > w {
            w
        } else {
            k
        },
        None => w,
    }
}

impl<const W: usize, const B: usize, T: Node> Beam<W, B, T> {
    /// The head node of each branch.
    pub closed spec fn spec_heads(&self) -> Seq<T> {
        self.heads@
    }

    /// The head node of each branch.
    pub fn heads(&self) -> (r: &[T])
        ensures
            r@ == self.spec_heads(),
    {
        self.heads.as_slice()
    }

    /// Whether some head is a goal state.
    pub fn has_fulfilled(&self) -> (r: bool)
        ensures
            r == exists|i: int| 0 <= i < self.spec_heads().len() && (#[trigger] self.spec_heads()[i]).spec_fulfilled(),
    {
        let mut i: usize = 0;
        while i < self.heads.len()
            invariant
                i <= self.heads@.len(),
                forall|j: int| 0 <= j < i ==> !(#[trigger] self.heads@[j]).spec_fulfilled(),
            decreases self.heads@.len() - i,
        {
            if self.heads[i].has_fulfilled() {
                proof {
                    assert(self.spec_heads()[i as int].spec_fulfilled());
                }
                return true;
            }
            i = i + 1;
        }
        false
    }

    /// The heads that are goal states, in branch order.
    pub fn nodes(&self) -> (r: Vec<&T>)
        ensures
            r@.map_values(|x: &T| *x) == self.spec_heads().filter(|n: T| n.spec_fulfilled()),
    {
        let mut r: Vec<&T> = Vec::new();
        let mut i: usize = 0;
        while i < self.heads.len()
            invariant
                i <= self.heads@.len(),
                r@.map_values(|x: &T| *x) == self.heads@.subrange(0, i as int).filter(
                    |n: T| n.spec_fulfilled(),
                ),
            decreases self.heads@.len() - i,
        {
            proof {
                let pre = self.heads@.subrange(0, i as int);
                assert(self.heads@.subrange(0, i + 1) =~= pre.push(self.heads@[i as int]));
                pre.lemma_filter_push(self.heads@[i as int], |n: T| n.spec_fulfilled());
            }
            let ghost before = r@;
            if self.heads[i].has_fulfilled() {
                r.push(&self.heads[i]);
                proof {
                    assert(r@.map_values(|x: &T| *x) =~= before.map_values(|x: &T| *x).push(
                        self.heads@[i as int],
                    ));
                }
            }
            i = i + 1;
        }
        proof {
            assert(self.heads@.subrange(0, self.heads@.len() as int) =~= self.heads@);
        }
        r
    }

    /// One beam step: every branch expands its head and, if it got
    /// successors, replaces the head by the first one of lowest score; a
    /// branch without successors keeps its head. The step succeeds exactly
    /// when some branch got a successor, and fails with `Exhausted` otherwise.
    pub fn cycle(&mut self) -> (r: Result<(), BeamError>)
        requires
            forall|i: int|
                0 <= i < old(self).spec_heads().len() ==> succ_evaluable(
                    #[trigger] old(self).spec_heads()[i],
                    W,
                    B,
                ),
        ensures
            final(self).spec_heads().len() == old(self).spec_heads().len(),
            forall|i: int|
                0 <= i < old(self).spec_heads().len() ==> stepped(
                    old(self).spec_heads()[i],
                    #[trigger] final(self).spec_heads()[i],
                    W,
                    B,
                ),
            r matches Ok(_) <==> exists|i: int|
                0 <= i < old(self).spec_heads().len() && advances(
                    #[trigger] old(self).spec_heads()[i],
                    W,
                    B,
                ),
            r matches Err(e) ==> e == BeamError::Exhausted,
    {
        let mut advanced = false;
        let n = self.heads.len();
        proof {
            assert forall|j: int| 0 <= j < n implies succ_evaluable(#[trigger] old(self).heads@[j], W, B) by {
                assert(old(self).heads@[j] == old(self).spec_heads()[j]);
            }
        }
        let mut i: usize = 0;
        while i < n
            invariant
                i <= n,
                self.heads@.len() == n,
                n == old(self).heads@.len(),
                forall|j: int| i <= j < n ==> #[trigger] self.heads@[j] == old(self).heads@[j],
                forall|j: int|
                    0 <= j < i ==> stepped(old(self).heads@[j], #[trigger] self.heads@[j], W, B),
                advanced <==> exists|j: int| 0 <= j < i && advances(#[trigger] old(self).heads@[j], W, B),
                forall|j: int| 0 <= j < n ==> succ_evaluable(#[trigger] old(self).heads@[j], W, B),
            decreases n - i,
        {
            let ghost prev = self.heads@;
            let res = self.heads[i].expand(W, B);
            let ghost h = old(self).heads@[i as int];
            match res {
                Ok(mut succ) => {
                    if succ.len() > 0 {
                        proof {
                            let sp = h.spec_expand(W, B)->Ok_0;
                            assert(succ_evaluable(old(self).heads@[i as int], W, B));
                            assert forall|j: int| 0 <= j < succ@.len() implies (#[trigger] succ@[j]).spec_evaluable() by {
                                succ@[j].lemma_same(&sp[j]);
                            }
                        }
                        let b = select_best(&succ);
                        proof {
                            let sp = h.spec_expand(W, B)->Ok_0;
                            assert(scores(succ@) =~= scores(sp)) by {
                                assert forall|j: int| 0 <= j < succ@.len() implies scores(succ@)[j]
                                    == scores(sp)[j] by {
                                    succ@[j].lemma_same(&sp[j]);
                                }
                            }
                        }
                        let ghost chosen_spec = succ@[b as int];
                        let chosen = succ.swap_remove(b);
                        self.heads.set(i, chosen);
                        advanced = true;
                        proof {
                            assert(self.heads@[i as int] == chosen_spec);
                            assert(stepped(h, self.heads@[i as int], W, B));
                            assert(advances(h, W, B));
                            assert forall|j: int| 0 <= j < i implies stepped(
                                old(self).heads@[j],
                                #[trigger] self.heads@[j],
                                W,
                                B,
                            ) by {
                                assert(self.heads@[j] == prev[j]);
                            }
                        }
                    } else {
                        proof {
                            assert(!advances(h, W, B));
                            assert(stepped(h, self.heads@[i as int], W, B));
                        }
                    }
                },
                Err(_) => {
                    proof {
                        assert(!advances(h, W, B));
                        assert(stepped(h, self.heads@[i as int], W, B));
                    }
                },
            }
            i = i + 1;
        }
        proof {
            assert forall|j: int| 0 <= j < n implies stepped(
                old(self).spec_heads()[j],
                #[trigger] self.spec_heads()[j],
                W,
                B,
            ) by {
                assert(stepped(old(self).heads@[j], self.heads@[j], W, B));
            }
        }
        if advanced {
            proof {
                let j = choose|j: int| 0 <= j < i && advances(#[trigger] old(self).heads@[j], W, B);
                assert(advances(old(self).spec_heads()[j], W, B));
            }
            Ok(())
        } else {
            proof {
                assert forall|j: int| 0 <= j < n implies !advances(#[trigger] old(self).spec_heads()[j], W, B) by {
                    assert(old(self).spec_heads()[j] == old(self).heads@[j]);
                }
            }
            Err(BeamError::Exhausted)
        }
    }

    /// Enlarges the workspace of every head.
    pub fn extend(&mut self)
        ensures
            final(self).spec_heads().len() == old(self).spec_heads().len(),
            forall|i: int|
                0 <= i < old(self).spec_heads().len() ==> old(self).spec_heads()[i].spec_inflate(
                    &#[trigger] final(self).spec_heads()[i],
                ),
    {
        let n = self.heads.len();
        let mut i: usize = 0;
        while i < n
            invariant
                i <= n,
                self.heads@.len() == n,
                n == old(self).heads@.len(),
                forall|j: int| i <= j < n ==> #[trigger] self.heads@[j] == old(self).heads@[j],
                forall|j: int|
                    0 <= j < i ==> old(self).heads@[j].spec_inflate(&#[trigger] self.heads@[j]),
            decreases n - i,
        {
            let ghost prev = self.heads@;
            self.heads[i].inflate();
            proof {
                assert forall|j: int| 0 <= j < i + 1 implies old(self).heads@[j].spec_inflate(
                    &#[trigger] self.heads@[j],
                ) by {
                    if j < i {
                        assert(self.heads@[j] == prev[j]);
                    }
                }
            }
            i = i + 1;
        }
    }

    /// Seeds the beam from `root`, with as many branches as the root's
    /// estimate asks for, clipped to `[1, W]`.
    pub fn from(root: T) -> (r: Result<Self, BeamError>)
        requires
            W >= 1,
        ensures
            seeded(root, root.spec_estimate(B), W, B, r),
    {
        let est = root.estimate(B);
        Self::from_estimate(root, est)
    }

    /// Seeds the beam from `root` given its estimate `est`: the branch count
    /// is `est` clipped to `[1, W]` (`W` without one), the heads are the
    /// root's successors for that width, and the branches they do not fill get
    /// a blank head. Fails when the root has no successor.
    pub fn from_estimate(root: T, est: Option<usize>) -> (r: Result<Self, BeamError>)
        requires
            W >= 1,
        ensures
            seeded(root, est, W, B, r),
    {
        let len = match est {
            Some(k) => if k < 1 {
                1
            } else if k > W {
                W
            } else {
                k
            },
            None => W,
        };
        match root.expand(len, B) {
            Ok(mut heads) => {
                if heads.len() == 0 {
                    return Err(BeamError::BranchExhausted);
                }
                let ghost c = heads@.len() as int;
                let ghost first = heads@;
                while heads.len() < len
                    invariant
                        1 <= c <= heads@.len() <= len,
                        forall|i: int| 0 <= i < c ==> #[trigger] heads@[i] == first[i],
                        forall|i: int| c <= i < heads@.len() ==> (#[trigger] heads@[i]).spec_blank(),
                    decreases len - heads@.len(),
                {
                    heads.push(T::blank());
                }
                let b = Beam { heads };
                proof {
                    assert(b.spec_heads() == heads@);
                    assert(blank_from(b.spec_heads(), c));
                }
                Ok(b)
            },
            Err(e) => Err(e),
        }
    }
}

/// Every successor of `n` has a score.
pub open spec fn succ_evaluable<T: Node>(n: T, w: usize, p: usize) -> bool {
    match n.spec_expand(w, p) {
        Ok(s) => forall|j: int| 0 <= j < s.len() ==> (#[trigger] s[j]).spec_evaluable(),
        Err(_) => true,
    }
}

/// Expanding `n` gives at least one successor.
pub open spec fn advances<T: Node>(n: T, w: usize, p: usize) -> bool {
    n.spec_expand(w, p) matches Ok(s) && s.len() > 0
}

/// After a step, a branch headed by `old` holds `new`: the first successor
/// of lowest score when `old` has successors, else `old` itself.
pub open spec fn stepped<T: Node>(old: T, new: T, w: usize, p: usize) -> bool {
    match old.spec_expand(w, p) {
        Ok(s) => if s.len() > 0 {
            new.spec_same(&s[first_min(scores(s))]) && old.spec_step(&new)
        } else {
            new == old
        },
        Err(_) => new == old,
    }
}

/// `r` is the beam seeded from `root` with estimate `est`: it exists exactly
/// when the root has successors for the branch count, its heads are those
/// successors followed by blank heads, and it has that many branches.
pub open spec fn seeded<const W: usize, const B: usize, T: Node>(
    root: T,
    est: Option<usize>,
    w: usize,
    p: usize,
    r: Result<Beam<W, B, T>, BeamError>,
) -> bool {
    let len = branch_count(est, w);
    &&& r is Ok <==> advances(root, len, p)
    &&& r matches Err(e) ==> e == BeamError::BranchExhausted
    &&& r matches Ok(b) ==> {
        let s = root.spec_expand(len, p)->Ok_0;
        &&& b.spec_heads().len() == len
        &&& forall|i: int|
            0 <= i < s.len() ==> (#[trigger] b.spec_heads()[i]).spec_same(&s[i]) && root.spec_step(
                &b.spec_heads()[i],
            )
        &&& blank_from(b.spec_heads(), s.len() as int)
    }
}

} // verus!
