//! `MockNode`: a counting node for exercising the beam. Its successors count
//! up by one, two, ... and it is a goal once the count reaches `TH`.
use vstd::prelude::*;

use crate::beam::{BeamError, Node};

verus! {

/// `10000 / count` rounded to the nearest integer, halves rounded up; an
/// empty count scores worst.
pub open spec fn mock_score(count: usize) -> u64 {
    if count == 0 {
        u64::MAX
    } else if count > 20000 {
        0
    } else {
        ((20000 + count) / (2 * count)) as u64
    }
}

/// The successors of a node at `count`: `count + 1`, `count + 2`, ..., up
/// to `width` of them, stopping at the end of the counter's range.
pub open spec fn mock_successors<const TH: usize>(count: usize, width: usize) -> Seq<MockNode<TH>> {
    let k = if width <= usize::MAX - count {
        width as int
    } else {
        usize::MAX - count
    };
    Seq::new(k as nat, |i: int| MockNode { count: (count + i + 1) as usize })
}

/// A node that carries a counter.
#[derive(Debug, Clone, Copy)]
pub struct MockNode<const TH: usize> {
    pub count: usize,
}

impl<const TH: usize> MockNode<TH> {
    /// A node at count zero.
    pub fn new() -> (r: Self)
        ensures
            r.count == 0,
    {
        MockNode { count: 0 }
    }
}

impl<const TH: usize> Node for MockNode<TH> {
    open spec fn spec_fulfilled(&self) -> bool {
        self.count >= TH
    }

    open spec fn spec_evaluate(&self) -> u64 {
        mock_score(self.count)
    }

    open spec fn spec_evaluable(&self) -> bool {
        true
    }

    open spec fn spec_blank(&self) -> bool {
        self.count == 0
    }

    open spec fn spec_step(&self, next: &Self) -> bool {
        next.count > self.count
    }

    open spec fn spec_same(&self, other: &Self) -> bool {
        self == other
    }

    /// Successors at `count + 1`, `count + 2`, ..., `width` of them or as
    /// many as the counter's range allows.
    open spec fn spec_expand(&self, width: usize, pool: usize) -> Result<Seq<Self>, BeamError> {
        Ok(mock_successors::<TH>(self.count, width))
    }

    open spec fn spec_inflate(&self, next: &Self) -> bool {
        next == self
    }

    open spec fn spec_estimate(&self, pool: usize) -> Option<usize> {
        None
    }

    proof fn lemma_same(&self, other: &Self) {
    }

    fn has_fulfilled(&self) -> (r: bool) {
        self.count >= TH
    }

    /// Successors at `count + 1`, `count + 2`, ... up to `width` of them,
    /// stopping where the count would overflow.
    fn expand(&self, width: usize, pool: usize) -> (r: Result<Vec<Self>, BeamError>) {
        let room = usize::MAX - self.count;
        let k = if width <= room {
            width
        } else {
            room
        };
        let mut v: Vec<Self> = Vec::new();
        let mut i: usize = 0;
        while i < k
            invariant
                i <= k,
                k == mock_successors::<TH>(self.count, width).len(),
                v@ == mock_successors::<TH>(self.count, width).subrange(0, i as int),
            decreases k - i,
        {
            v.push(MockNode { count: self.count + i + 1 });
            i = i + 1;
            proof {
                assert(v@ =~= mock_successors::<TH>(self.count, width).subrange(0, i as int));
            }
        }
        proof {
            assert(v@ =~= mock_successors::<TH>(self.count, width));
        }
        Ok(v)
    }

    fn evaluate(&self) -> (r: u64) {
        if self.count == 0 {
            u64::MAX
        } else if self.count > 20000 {
            0
        } else {
            ((20000 + self.count) / (2 * self.count)) as u64
        }
    }

    /// The counter has no workspace to enlarge.
    fn inflate(&mut self) {
    }

    fn estimate(&self, pool: usize) -> (r: Option<usize>) {
        None
    }

    fn blank() -> (r: Self) {
        MockNode { count: 0 }
    }
}

} // verus!
