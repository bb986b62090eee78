//! `BspaNode`: a search node of rectangle bin packing. A node holds the free
//! spaces of the container, the blocks placed so far, the source rectangles
//! still to pack (as type and count), and the candidate blocks that those
//! counts still allow.
use vstd::prelude::*;

use vstd::arithmetic::div_mod::lemma_fundamental_div_mod_converse;

use crate::beam::{BeamError, Node};
use crate::geom::{
    bounds, fill_sum, group_h, group_w, lemma_rect_spec, max_right, max_top, min_x, min_y, overlap,
    rect_spec, right, sat, sat64, shifted, split_e_spec,
    split_n_spec, split_s_spec, split_w_spec, subtract_spec, top, Area, Placement, Rect, RectGroup,
};

verus! {

broadcast use lemma_rect_spec;

/// Number of rectangles of type `k` in `l`.
pub open spec fn count_of(l: Seq<Placement<Rect>>, k: Rect) -> nat
    decreases l.len(),
{
    if l.len() == 0 {
        0
    } else {
        count_of(l.drop_last(), k) + if l.last().item == k {
            1nat
        } else {
            0nat
        }
    }
}

/// `g` uses no more rectangles of any type of `bx` than `bx` has left.
pub open spec fn respects(g: RectGroup, bx: Seq<(Rect, usize)>) -> bool {
    forall|i: int| 0 <= i < bx.len() ==> count_of(g.spec_list(), #[trigger] bx[i].0) <= bx[i].1
}

/// The container can grow by `d` above the blocks' height: the new height
/// is in range and no space reaching the old height starts above it.
pub open spec fn lift_fits(n: BspaNode, d: u32) -> bool {
    let ymax = group_h(n.spec_blocks()) as int;
    &&& ymax + d <= u32::MAX
    &&& forall|i: int|
        0 <= i < n.spec_spaces().len() && top(#[trigger] n.spec_spaces()[i]) >= ymax ==> n.spec_spaces()[i].y
            <= ymax + d
}

proof fn lemma_lift_aligns(sp: Seq<Placement<Rect>>, ymax: u32, xmax: u32, d: u32)
    requires
        ymax + d <= u32::MAX,
        forall|i: int| 0 <= i < sp.len() && top(#[trigger] sp[i]) >= ymax ==> sp[i].y <= ymax + d,
    ensures
        tops_aligned(lifted_spaces(sp, ymax, xmax, d), ymax as int),
{
    let l = lifted_spaces(sp, ymax, xmax, d);
    assert forall|a: int| 0 <= a < l.len() && top(#[trigger] l[a]) >= ymax implies top(l[a]) == ymax + d by {
        if a < sp.len() {
            assert(l[a] == lift_one(sp[a], ymax, d));
        }
    }
}

/// The filled share of `g`'s area is at least `f_num / f_den`.
pub open spec fn fill_share_ok(g: RectGroup, f_num: u64, f_den: u64) -> bool {
    g.spec_area() > 0 && g.spec_fill() as int * f_den as int >= g.spec_area() as int * f_num as int
}

/// Every rectangle of `g` is of one type.
pub open spec fn uniform(g: RectGroup) -> bool {
    forall|i: int|
        0 <= i < g.spec_list().len() ==> (#[trigger] g.spec_list()[i]).item == g.spec_list()[0].item
}

/// The first `k` candidates fit in `w` by `h`; the others are of one type
/// each.
pub open spec fn combined_first(blk: Seq<RectGroup>, k: int, w: u32, h: u32) -> bool {
    &&& 0 <= k <= blk.len()
    &&& forall|i: int| 0 <= i < k ==> (#[trigger] blk[i]).spec_w() <= w && blk[i].spec_h() <= h
    &&& forall|i: int| k <= i < blk.len() ==> uniform(#[trigger] blk[i])
}

/// `a` lies inside `s`.
pub open spec fn contained<T: Area, U: Area>(a: Placement<T>, s: Placement<U>) -> bool {
    &&& s.x <= a.x
    &&& right(a) <= right(s)
    &&& s.y <= a.y
    &&& top(a) <= top(s)
}

/// No two blocks overlap.
pub open spec fn blocks_disjoint(b: Seq<Placement<RectGroup>>) -> bool {
    forall|i: int, j: int|
        0 <= i < b.len() && 0 <= j < b.len() && i != j ==> !overlap(#[trigger] b[i], #[trigger] b[j])
}

/// No space overlaps a block.
pub open spec fn spaces_clear(sp: Seq<Placement<Rect>>, b: Seq<Placement<RectGroup>>) -> bool {
    forall|i: int, j: int|
        0 <= i < sp.len() && 0 <= j < b.len() ==> !overlap(#[trigger] sp[i], #[trigger] b[j])
}

/// No space of `sp` overlaps `q`.
pub open spec fn clear_of<U: Area>(sp: Seq<Placement<Rect>>, q: Placement<U>) -> bool {
    forall|i: int| 0 <= i < sp.len() ==> !overlap(#[trigger] sp[i], q)
}

/// The slabs that the spaces overlapping `b` split into around it.
pub open spec fn split_part(sp: Seq<Placement<Rect>>, b: Placement<RectGroup>) -> Seq<
    Placement<Rect>,
>
    decreases sp.len(),
{
    if sp.len() == 0 {
        Seq::empty()
    } else {
        split_part(sp.drop_last(), b) + if overlap(sp.last(), b) {
            subtract_spec(sp.last(), b)
        } else {
            Seq::empty()
        }
    }
}

/// The spaces that do not overlap `b`.
pub open spec fn kept_part(sp: Seq<Placement<Rect>>, b: Placement<RectGroup>) -> Seq<
    Placement<Rect>,
> {
    sp.filter(|s: Placement<Rect>| !overlap(s, b))
}

/// The free spaces once `b` is placed: the split slabs first, then the
/// untouched spaces.
pub open spec fn gen_spaces(sp: Seq<Placement<Rect>>, b: Placement<RectGroup>) -> Seq<
    Placement<Rect>,
> {
    split_part(sp, b) + kept_part(sp, b)
}

/// A slab of a space around an overlapping block lies in the space and
/// misses the block.
proof fn lemma_slabs(s: Placement<Rect>, b: Placement<RectGroup>)
    requires
        overlap(s, b),
    ensures
        forall|i: int|
            0 <= i < subtract_spec(s, b).len() ==> contained(#[trigger] subtract_spec(s, b)[i], s)
                && !overlap(subtract_spec(s, b)[i], b),
{
    let n = split_n_spec(s, b);
    let so = split_s_spec(s, b);
    let e = split_e_spec(s, b);
    let w = split_w_spec(s, b);
    assert(n matches Some(p) ==> contained(p, s) && !overlap(p, b));
    assert(so matches Some(p) ==> contained(p, s) && !overlap(p, b));
    assert(e matches Some(p) ==> contained(p, s) && !overlap(p, b));
    assert(w matches Some(p) ==> contained(p, s) && !overlap(p, b));
}

/// Whatever lies in a space that misses `q` misses `q`.
proof fn lemma_contained_clear<T: Area, U: Area, V: Area>(
    a: Placement<T>,
    s: Placement<U>,
    q: Placement<V>,
)
    requires
        contained(a, s),
        !overlap(s, q),
    ensures
        !overlap(a, q),
{
}

proof fn lemma_split_part(sp: Seq<Placement<Rect>>, b: Placement<RectGroup>, q: Placement<RectGroup>)
    ensures
        clear_of(sp, q) ==> clear_of(split_part(sp, b), q),
        clear_of(split_part(sp, b), b),
    decreases sp.len(),
{
    if sp.len() > 0 {
        let pre = sp.drop_last();
        assert(clear_of(sp, q) ==> clear_of(pre, q)) by {
            if clear_of(sp, q) {
                assert forall|i: int| 0 <= i < pre.len() implies !overlap(#[trigger] pre[i], q) by {
                    assert(pre[i] == sp[i]);
                }
            }
        }
        lemma_split_part(pre, b, q);
        let s = sp.last();
        assert(clear_of(sp, q) ==> !overlap(s, q)) by {
            assert(s == sp[sp.len() - 1]);
        }
        if overlap(s, b) {
            lemma_slabs(s, b);
            let t = subtract_spec(s, b);
            let all = split_part(pre, b) + t;
            assert forall|i: int| 0 <= i < all.len() implies (clear_of(sp, q) ==> !overlap(
                #[trigger] all[i],
                q,
            )) && !overlap(all[i], b) by {
                if i >= split_part(pre, b).len() {
                    let k = i - split_part(pre, b).len();
                    assert(all[i] == t[k]);
                    if clear_of(sp, q) {
                        lemma_contained_clear(t[k], s, q);
                    }
                }
            }
        } else {
            assert(split_part(sp, b) =~= split_part(pre, b));
        }
    }
}

proof fn lemma_kept_part(sp: Seq<Placement<Rect>>, b: Placement<RectGroup>, q: Placement<RectGroup>)
    ensures
        clear_of(sp, q) ==> clear_of(kept_part(sp, b), q),
        clear_of(kept_part(sp, b), b),
{
    let f = |s: Placement<Rect>| !overlap(s, b);
    let k = kept_part(sp, b);
    assert forall|i: int| 0 <= i < k.len() implies (clear_of(sp, q) ==> !overlap(#[trigger] k[i], q))
        && !overlap(k[i], b) by {
        sp.lemma_filter_pred(f, i);
        assert(k.contains(k[i]));
        sp.lemma_filter_contains_rev(f, k[i]);
        let j = choose|j: int| 0 <= j < sp.len() && sp[j] == k[i];
    }
}

/// The space `prepare` picks among the first `i` spaces: the first one, in
/// list order, of the lowest-then-leftmost position among those some
/// candidate fits; `sp.len()` when none does.
pub open spec fn best_space_upto(sp: Seq<Placement<Rect>>, blk: Seq<RectGroup>, i: int) -> int
    decreases i,
{
    if i <= 0 {
        sp.len() as int
    } else {
        let b = best_space_upto(sp, blk, i - 1);
        if admits(blk, sp[i - 1]) && (b == sp.len() || before(sp[i - 1], sp[b])) {
            i - 1
        } else {
            b
        }
    }
}

/// Position of the space that expansion picks; the number of spaces when
/// no space takes a candidate.
pub open spec fn chosen_space(sp: Seq<Placement<Rect>>, blk: Seq<RectGroup>) -> int {
    best_space_upto(sp, blk, sp.len() as int)
}

/// Score of placing `g` into `s` with counts `bx`.
pub open spec fn key_of(bx: Seq<(Rect, usize)>, g: RectGroup, s: Placement<Rect>) -> u64 {
    sat64(s.item.spec_area() - g.spec_area() + avg_high_spec(bx, g.spec_list()))
}

/// Positions, among the first `i` candidates, of those that fit in `s`.
pub open spec fn cands_upto(blk: Seq<RectGroup>, s: Placement<Rect>, i: int) -> Seq<int>
    decreases i,
{
    if i <= 0 {
        Seq::empty()
    } else if fits(blk[i - 1], s) {
        cands_upto(blk, s, i - 1).push(i - 1)
    } else {
        cands_upto(blk, s, i - 1)
    }
}

/// Scores of the candidates among the first `i` that fit in `s`.
pub open spec fn keys_upto(bx: Seq<(Rect, usize)>, blk: Seq<RectGroup>, s: Placement<Rect>, i: int) -> Seq<u64>
    decreases i,
{
    if i <= 0 {
        Seq::empty()
    } else if fits(blk[i - 1], s) {
        keys_upto(bx, blk, s, i - 1).push(key_of(bx, blk[i - 1], s))
    } else {
        keys_upto(bx, blk, s, i - 1)
    }
}

/// Among the first `k` keys not in `taken`, the first of the lowest;
/// `keys.len()` when there is none.
pub open spec fn argmin_free(keys: Seq<u64>, taken: Seq<usize>, k: int) -> int
    decreases k,
{
    if k <= 0 {
        keys.len() as int
    } else {
        let b = argmin_free(keys, taken, k - 1);
        if !taken.contains((k - 1) as usize) && (b == keys.len() || keys[k - 1] < keys[b]) {
            k - 1
        } else {
            b
        }
    }
}

/// The positions that `rounds` rounds of picking the lowest free key take.
pub open spec fn picks(keys: Seq<u64>, rounds: nat) -> Seq<usize>
    decreases rounds,
{
    if rounds == 0 {
        Seq::empty()
    } else {
        let p = picks(keys, (rounds - 1) as nat);
        if p.len() < rounds - 1 {
            p
        } else {
            let b = argmin_free(keys, p, keys.len() as int);
            if b == keys.len() {
                p
            } else {
                p.push(b as usize)
            }
        }
    }
}

proof fn lemma_picks_stuck(keys: Seq<u64>, m: nat, q: nat)
    requires
        picks(keys, m).len() == m,
        argmin_free(keys, picks(keys, m), keys.len() as int) == keys.len(),
        q > m,
    ensures
        picks(keys, q) == picks(keys, m),
    decreases q,
{
    if q > m + 1 {
        lemma_picks_stuck(keys, m, (q - 1) as nat);
    }
}

/// Positions in `blk` of the candidates that a pool of size `pool` takes for
/// the space `s`, best first.
pub open spec fn pool_of(bx: Seq<(Rect, usize)>, blk: Seq<RectGroup>, s: Placement<Rect>, pool: usize) -> Seq<int> {
    let c = cands_upto(blk, s, blk.len() as int);
    picks(keys_upto(bx, blk, s, blk.len() as int), pool as nat).map_values(|q: usize| c[q as int])
}

/// `v` holds copies of the candidates of `blk` at the positions `idx`.
pub open spec fn copies_of(v: Seq<RectGroup>, blk: Seq<RectGroup>, idx: Seq<int>) -> bool {
    &&& v.len() == idx.len()
    &&& forall|m: int| 0 <= m < v.len() ==> 0 <= idx[m] < blk.len() && same_group(#[trigger] v[m], blk[idx[m]])
}

/// The counts once the rectangles of `l` are taken out.
pub open spec fn box_after(bx: Seq<(Rect, usize)>, l: Seq<Placement<Rect>>) -> Seq<(Rect, usize)> {
    Seq::new(bx.len(), |i: int| (bx[i].0, sat_sub(bx[i].1, count_of(l, bx[i].0))))
}

/// The candidates of `blk` that stay within the counts `bx`, in order.
pub open spec fn still_allowed(blk: Seq<RectGroup>, bx: Seq<(Rect, usize)>) -> Seq<RectGroup> {
    blk.filter(|g: RectGroup| respects(g, bx))
}

/// `a` and `b` hold the same groups, position by position.
pub open spec fn same_groups(a: Seq<RectGroup>, b: Seq<RectGroup>) -> bool {
    a.len() == b.len() && forall|i: int| 0 <= i < a.len() ==> same_group(#[trigger] a[i], b[i])
}

/// `a` and `b` hold the same blocks, position by position.
pub open spec fn same_blocks(a: Seq<Placement<RectGroup>>, b: Seq<Placement<RectGroup>>) -> bool {
    a.len() == b.len() && forall|i: int| 0 <= i < a.len() ==> same_placed(#[trigger] a[i], b[i])
}

/// `c` is the child of `p` that places `g` at the lower-left corner of `sp`.
pub open spec fn child_of(p: BspaNode, sp: Placement<Rect>, g: RectGroup, c: BspaNode) -> bool {
    let placed = Placement { x: sp.x, y: sp.y, item: g };
    let nb = box_after(p.spec_box(), g.spec_list());
    &&& c.spec_spaces() == gen_spaces(p.spec_spaces(), placed)
    &&& c.spec_box() == nb
    &&& same_blocks(c.spec_blocks(), p.spec_blocks().push(placed))
    &&& same_groups(c.spec_blk(), still_allowed(p.spec_blk(), nb))
}

proof fn lemma_split_part_same(sp: Seq<Placement<Rect>>, b1: Placement<RectGroup>, b2: Placement<RectGroup>)
    requires
        b1.x == b2.x,
        b1.y == b2.y,
        b1.item.spec_w() == b2.item.spec_w(),
        b1.item.spec_h() == b2.item.spec_h(),
    ensures
        split_part(sp, b1) == split_part(sp, b2),
    decreases sp.len(),
{
    if sp.len() > 0 {
        lemma_split_part_same(sp.drop_last(), b1, b2);
        assert(subtract_spec(sp.last(), b1) == subtract_spec(sp.last(), b2));
    }
}

proof fn lemma_kept_part_same(sp: Seq<Placement<Rect>>, b1: Placement<RectGroup>, b2: Placement<RectGroup>)
    requires
        b1.x == b2.x,
        b1.y == b2.y,
        b1.item.spec_w() == b2.item.spec_w(),
        b1.item.spec_h() == b2.item.spec_h(),
    ensures
        kept_part(sp, b1) == kept_part(sp, b2),
    decreases sp.len(),
{
    if sp.len() > 0 {
        let pre = sp.drop_last();
        lemma_kept_part_same(pre, b1, b2);
        assert(sp == pre.push(sp.last()));
        pre.lemma_filter_push(sp.last(), |s: Placement<Rect>| !overlap(s, b1));
        pre.lemma_filter_push(sp.last(), |s: Placement<Rect>| !overlap(s, b2));
    } else {
        assert(kept_part(sp, b1) =~= kept_part(sp, b2));
    }
}

/// Two children of the same parent, space and candidate hold the same state.
proof fn lemma_child_unique(p: BspaNode, sp: Placement<Rect>, g: RectGroup, c1: BspaNode, c2: BspaNode)
    requires
        child_of(p, sp, g, c1),
        child_of(p, sp, g, c2),
    ensures
        c1.spec_same(&c2),
{
    let placed = Placement { x: sp.x, y: sp.y, item: g };
    let bl = p.spec_blocks().push(placed);
    let al = still_allowed(p.spec_blk(), box_after(p.spec_box(), g.spec_list()));
    assert forall|i: int| 0 <= i < c1.spec_blocks().len() implies same_placed(
        #[trigger] c1.spec_blocks()[i],
        c2.spec_blocks()[i],
    ) by {
        assert(same_placed(c1.spec_blocks()[i], bl[i]));
        assert(same_placed(c2.spec_blocks()[i], bl[i]));
    }
    assert forall|i: int| 0 <= i < c1.spec_blk().len() implies same_group(
        #[trigger] c1.spec_blk()[i],
        c2.spec_blk()[i],
    ) by {
        assert(same_group(c1.spec_blk()[i], al[i]));
        assert(same_group(c2.spec_blk()[i], al[i]));
    }
}

/// Blocks that are the same position by position have the same bounding
/// box and fill.
proof fn lemma_blocks_measures(a: Seq<Placement<RectGroup>>, b: Seq<Placement<RectGroup>>)
    requires
        same_blocks(a, b),
    ensures
        min_x(a) == min_x(b),
        max_right(a) == max_right(b),
        min_y(a) == min_y(b),
        max_top(a) == max_top(b),
        fill_sum(a) == fill_sum(b),
    decreases a.len(),
{
    if a.len() > 0 {
        let pa = a.drop_last();
        let pb = b.drop_last();
        assert(same_blocks(pa, pb)) by {
            assert forall|i: int| 0 <= i < pa.len() implies same_placed(#[trigger] pa[i], pb[i]) by {
                assert(same_placed(a[i], b[i]));
            }
        }
        lemma_blocks_measures(pa, pb);
        assert(same_placed(a[a.len() - 1], b[b.len() - 1]));
        assert(a.last() == a[a.len() - 1]);
        assert(b.last() == b[b.len() - 1]);
        if a.len() == 1 {
            assert(a[0] == a.last());
            assert(b[0] == b.last());
        }
    }
}

/// Largest right edge of the spaces, each capped at `u32::MAX`; zero for
/// none.
pub open spec fn max_edge(sp: Seq<Placement<Rect>>) -> u32
    decreases sp.len(),
{
    if sp.len() == 0 {
        0
    } else {
        let m = max_edge(sp.drop_last());
        if sat(right(sp.last())) > m {
            sat(right(sp.last()))
        } else {
            m
        }
    }
}

/// Right edge of the container: that of the rightmost space, or the blocks'
/// width when there is no space.
pub open spec fn xmax_of(sp: Seq<Placement<Rect>>, blocks: Seq<Placement<RectGroup>>) -> u32 {
    if sp.len() == 0 {
        group_w(blocks)
    } else {
        max_edge(sp)
    }
}

/// `s` reaches height `ymax` and spans the width `xmax`.
pub open spec fn full_top(s: Placement<Rect>, ymax: u32, xmax: u32) -> bool {
    top(s) >= ymax && s.item.spec_w() >= xmax
}

/// Some space of `sp` reaches `ymax` and spans the width `xmax`.
pub open spec fn any_full_top(sp: Seq<Placement<Rect>>, ymax: u32, xmax: u32) -> bool {
    exists|j: int| 0 <= j < sp.len() && #[trigger] full_top(sp[j], ymax, xmax)
}

/// `s`, reaching up without bound when it reaches `ymax`.
pub open spec fn raise_one(s: Placement<Rect>, ymax: u32) -> Placement<Rect> {
    if top(s) >= ymax {
        Placement { x: s.x, y: s.y, item: rect_spec(s.item.spec_w(), (u32::MAX - s.y) as u32) }
    } else {
        s
    }
}

/// The spaces with those reaching `ymax` made unbounded, and an unbounded
/// full-width space on top when none of them spans `xmax`.
pub open spec fn raised_spaces(sp: Seq<Placement<Rect>>, ymax: u32, xmax: u32) -> Seq<Placement<Rect>> {
    let m = sp.map_values(|s: Placement<Rect>| raise_one(s, ymax));
    if any_full_top(sp, ymax, xmax) {
        m
    } else {
        m.push(Placement { x: 0, y: ymax, item: rect_spec(xmax, (u32::MAX - ymax) as u32) })
    }
}

/// `lhs` is `n` with its top spaces made unbounded.
pub open spec fn raised_copy(n: BspaNode, lhs: BspaNode) -> bool {
    let ymax = group_h(n.spec_blocks());
    &&& lhs.spec_spaces() == raised_spaces(
        n.spec_spaces(),
        ymax,
        xmax_of(n.spec_spaces(), n.spec_blocks()),
    )
    &&& lhs.spec_box() == n.spec_box()
    &&& same_blocks(lhs.spec_blocks(), n.spec_blocks())
    &&& same_groups(lhs.spec_blk(), n.spec_blk())
}

/// Placing the best block once into `n` with unbounded top spaces raises
/// the blocks' height by `d`; `d` is zero when no block fits.
pub open spec fn grows_by(n: BspaNode, d: u32) -> bool {
    exists|lhs: BspaNode|
        #[trigger] raised_copy(n, lhs) && match lhs.spec_expand(1, 1) {
            Ok(s) => if s.len() > 0 {
                d == sat(group_h(s[0].spec_blocks()) - group_h(n.spec_blocks()))
            } else {
                d == 0
            },
            Err(_) => d == 0,
        }
}

/// Height of a space reaching `ymax` once the container ends at `ymax + d`.
pub open spec fn lifted_h(ymax: u32, d: u32, y: u32) -> u32 {
    sat(ymax + d - y)
}

/// `s`, stretched to end at `ymax + d` when it reaches `ymax`.
pub open spec fn lift_one(s: Placement<Rect>, ymax: u32, d: u32) -> Placement<Rect> {
    if top(s) >= ymax {
        Placement { x: s.x, y: s.y, item: rect_spec(s.item.spec_w(), lifted_h(ymax, d, s.y)) }
    } else {
        s
    }
}

/// The spaces once the container grows by `d` above `ymax`: those reaching
/// `ymax` stretched, and a full-width space of height `d` on top when none
/// of them spans `xmax`.
pub open spec fn lifted_spaces(sp: Seq<Placement<Rect>>, ymax: u32, xmax: u32, d: u32) -> Seq<Placement<Rect>> {
    let m = sp.map_values(|s: Placement<Rect>| lift_one(s, ymax, d));
    if any_full_top(sp, ymax, xmax) {
        m
    } else {
        m.push(Placement { x: 0, y: ymax, item: rect_spec(xmax, d) })
    }
}

/// `after` is `before` with the container grown by `d`.
pub open spec fn inflated_by(before: BspaNode, after: BspaNode, d: u32) -> bool {
    &&& after.spec_spaces() == lifted_spaces(
        before.spec_spaces(),
        group_h(before.spec_blocks()),
        xmax_of(before.spec_spaces(), before.spec_blocks()),
        d,
    )
    &&& after.spec_blocks() == before.spec_blocks()
    &&& after.spec_box() == before.spec_box()
    &&& after.spec_blk() == before.spec_blk()
}

/// `after` is what inflating `before` gives: the empty node stays as it is;
/// any other grows by what one more placement needs.
pub open spec fn inflates_to(before: BspaNode, after: BspaNode) -> bool {
    if before.spec_is_empty() {
        after == before
    } else {
        exists|d: u32| grows_by(before, d) && #[trigger] inflated_by(before, after, d)
    }
}

/// The positions `idx` are the best candidates of `blk` for `s` that a pool
/// of size `pool` takes: all of them fit, their scores ascend, no fitting
/// candidate left out scores lower than the last one taken, and fewer than
/// `pool` are taken only when every fitting candidate is.
pub open spec fn best_pool(bx: Seq<(Rect, usize)>, blk: Seq<RectGroup>, s: Placement<Rect>, pool: usize, idx: Seq<int>) -> bool {
    &&& idx.len() <= pool
    &&& forall|m: int| 0 <= m < idx.len() ==> 0 <= #[trigger] idx[m] < blk.len() && fits(blk[idx[m]], s)
    &&& forall|m: int|
        0 < m < idx.len() ==> key_of(bx, blk[idx[m - 1]], s) <= key_of(bx, blk[#[trigger] idx[m]], s)
    &&& forall|j: int|
        0 <= j < blk.len() && fits(#[trigger] blk[j], s) && !idx.contains(j) && idx.len() > 0 ==> key_of(
            bx,
            blk[idx.last()],
            s,
        ) <= key_of(bx, blk[j], s)
    &&& idx.len() < pool ==> forall|j: int| 0 <= j < blk.len() && fits(#[trigger] blk[j], s) ==> idx.contains(j)
}

/// The rectangle lists of the groups of `v`.
pub open spec fn lists(v: Seq<RectGroup>) -> Seq<Seq<Placement<Rect>>> {
    v.map_values(|g: RectGroup| g.spec_list())
}

/// The grid of `gw` columns by `gl` rows of `bt`, column by column.
pub open spec fn grid_list(bt: Rect, gw: nat, gl: nat) -> Seq<Placement<Rect>> {
    Seq::new(
        gw * gl,
        |m: int|
            Placement {
                x: sat((m / gl as int) * bt.spec_w()),
                y: sat((m % gl as int) * bt.spec_h()),
                item: bt,
            },
    )
}

/// The first `y` rectangles of column `x` of a grid of `bt`.
pub open spec fn column_part(bt: Rect, x: nat, y: nat) -> Seq<Placement<Rect>> {
    Seq::new(y, |yy: int| Placement { x: sat(x * bt.spec_w()), y: sat(yy * bt.spec_h()), item: bt })
}

/// The list's filled share of its bounding box is at least `f_num / f_den`.
pub open spec fn list_fill_ok(l: Seq<Placement<Rect>>, f_num: u64, f_den: u64) -> bool {
    let a = group_w(l) as int * group_h(l) as int;
    a > 0 && fill_sum(l) as int * f_den as int >= a * f_num as int
}

/// The grids of `gw` columns of `bt` with `1..=gl` rows that pass the fill
/// share.
pub open spec fn grids_gl(bt: Rect, gw: nat, gl: nat, f_num: u64, f_den: u64) -> Seq<Seq<Placement<Rect>>>
    decreases gl,
{
    if gl == 0 {
        Seq::empty()
    } else {
        let pre = grids_gl(bt, gw, (gl - 1) as nat, f_num, f_den);
        let l = grid_list(bt, gw, gl);
        if list_fill_ok(l, f_num, f_den) {
            pre.push(l)
        } else {
            pre
        }
    }
}

/// The grids of `bt` with `1..=gw` columns and up to `bc / columns` rows
/// that pass the fill share.
pub open spec fn grids_gw(bt: Rect, bc: nat, gw: nat, f_num: u64, f_den: u64) -> Seq<Seq<Placement<Rect>>>
    decreases gw,
{
    if gw == 0 {
        Seq::empty()
    } else {
        grids_gw(bt, bc, (gw - 1) as nat, f_num, f_den) + grids_gl(bt, gw, bc / gw, f_num, f_den)
    }
}

/// The grids of the first `t` types of `bx`, each up to its count, that pass
/// the fill share.
pub open spec fn grids_spec(bx: Seq<(Rect, usize)>, t: nat, f_num: u64, f_den: u64) -> Seq<Seq<Placement<Rect>>>
    decreases t,
{
    if t == 0 {
        Seq::empty()
    } else {
        grids_spec(bx, (t - 1) as nat, f_num, f_den) + grids_gw(
            bx[t - 1].0,
            bx[t - 1].1 as nat,
            bx[t - 1].1 as nat,
            f_num,
            f_den,
        )
    }
}

proof fn lemma_grid_extend(bt: Rect, x: nat, gl: nat)
    requires
        gl >= 1,
    ensures
        grid_list(bt, x, gl) + column_part(bt, x, gl) == grid_list(bt, x + 1, gl),
{
    let a = grid_list(bt, x, gl);
    let b = grid_list(bt, x + 1, gl);
    assert((x + 1) * gl == x * gl + gl) by (nonlinear_arith);
    let c = a + column_part(bt, x, gl);
    assert forall|m: int| 0 <= m < b.len() implies c[m] == b[m] by {
        if m >= x * gl {
            let yy = m - x * gl;
            lemma_fundamental_div_mod_converse(m, gl as int, x as int, yy);
        }
    }
    assert(c =~= b);
}

/// No type of `bx` occurs in `l` more often than its count.
pub open spec fn respects_list(l: Seq<Placement<Rect>>, bx: Seq<(Rect, usize)>) -> bool {
    forall|i: int| 0 <= i < bx.len() ==> count_of(l, #[trigger] bx[i].0) <= bx[i].1
}

/// `lb` joined to the right of `la`.
pub open spec fn side_list(la: Seq<Placement<Rect>>, lb: Seq<Placement<Rect>>) -> Seq<Placement<Rect>> {
    la + shifted(lb, group_w(la), 0)
}

/// `lb` joined on top of `la`.
pub open spec fn stack_list(la: Seq<Placement<Rect>>, lb: Seq<Placement<Rect>>) -> Seq<Placement<Rect>> {
    la + shifted(lb, 0, group_h(la))
}

/// A pairing is kept when it fits in `w` by `h`, stays within the counts and
/// passes the fill share.
pub open spec fn keep_pair(l: Seq<Placement<Rect>>, w: u32, h: u32, bx: Seq<(Rect, usize)>, f_num: u64, f_den: u64) -> bool {
    &&& group_w(l) <= w
    &&& group_h(l) <= h
    &&& respects_list(l, bx)
    &&& list_fill_ok(l, f_num, f_den)
}

/// `acc` with the pairing `l` added when fewer than `n` are kept and it is
/// kept.
pub open spec fn add_pair(
    acc: Seq<Seq<Placement<Rect>>>,
    l: Seq<Placement<Rect>>,
    n: usize,
    w: u32,
    h: u32,
    bx: Seq<(Rect, usize)>,
    f_num: u64,
    f_den: u64,
) -> Seq<Seq<Placement<Rect>>> {
    if acc.len() < n && keep_pair(l, w, h, bx, f_num, f_den) {
        acc.push(l)
    } else {
        acc
    }
}

/// The pairings kept among the first `p` ordered pairs of grids of `sl`
/// (first grid outermost), each pair tried side by side and then stacked.
pub open spec fn pairs_upto(
    sl: Seq<Seq<Placement<Rect>>>,
    p: nat,
    n: usize,
    w: u32,
    h: u32,
    bx: Seq<(Rect, usize)>,
    f_num: u64,
    f_den: u64,
) -> Seq<Seq<Placement<Rect>>>
    decreases p,
{
    if p == 0 || sl.len() == 0 {
        Seq::empty()
    } else {
        let pre = pairs_upto(sl, (p - 1) as nat, n, w, h, bx, f_num, f_den);
        let a = (p - 1) / (sl.len() as int);
        let b = (p - 1) % (sl.len() as int);
        add_pair(
            add_pair(pre, side_list(sl[a as int], sl[b as int]), n, w, h, bx, f_num, f_den),
            stack_list(sl[a as int], sl[b as int]),
            n,
            w,
            h,
            bx,
            f_num,
            f_den,
        )
    }
}

/// The candidate lists of a root node with counts `bx` in a container `w`
/// by `h`: the kept pairings of the grids (at most `n`), then the grids that
/// stay within the counts.
pub open spec fn cand_lists(bx: Seq<(Rect, usize)>, w: u32, h: u32, n: usize, f_num: u64, f_den: u64) -> Seq<Seq<Placement<Rect>>> {
    let sl = grids_spec(bx, bx.len() as nat, f_num, f_den);
    pairs_upto(sl, sl.len() * sl.len(), n, w, h, bx, f_num, f_den) + sl.filter(
        |l: Seq<Placement<Rect>>| respects_list(l, bx),
    )
}

/// The two groups hold the same rectangles and report the same measures.
pub open spec fn same_group(a: RectGroup, b: RectGroup) -> bool {
    &&& a.spec_list() == b.spec_list()
    &&& a.spec_w() == b.spec_w()
    &&& a.spec_h() == b.spec_h()
    &&& a.spec_area() == b.spec_area()
    &&& a.spec_fill() == b.spec_fill()
}

/// The two blocks are the same group at the same position.
pub open spec fn same_placed(a: Placement<RectGroup>, b: Placement<RectGroup>) -> bool {
    a.x == b.x && a.y == b.y && same_group(a.item, b.item)
}

/// `a - b`, or zero.
pub open spec fn sat_sub(a: usize, b: nat) -> usize {
    if a >= b {
        (a - b) as usize
    } else {
        0
    }
}

/// Sum over the types of `bx` of height times the count left once `l` is
/// taken out, saturating.
pub open spec fn high_sum(bx: Seq<(Rect, usize)>, l: Seq<Placement<Rect>>) -> u64
    decreases bx.len(),
{
    if bx.len() == 0 {
        0
    } else {
        sat64(
            high_sum(bx.drop_last(), l) + sat64(
                bx.last().0.spec_h() * sat_sub(bx.last().1, count_of(l, bx.last().0)),
            ),
        )
    }
}

/// Sum over the types of `bx` of the count left once `l` is taken out,
/// saturating.
pub open spec fn left_sum(bx: Seq<(Rect, usize)>, l: Seq<Placement<Rect>>) -> u64
    decreases bx.len(),
{
    if bx.len() == 0 {
        0
    } else {
        sat64(left_sum(bx.drop_last(), l) + sat_sub(bx.last().1, count_of(l, bx.last().0)))
    }
}

/// `s / l` rounded to the nearest integer, halves up; zero when `l` is zero.
pub open spec fn round_div(s: u64, l: u64) -> u64 {
    if l == 0 {
        0
    } else if s % l >= l - s % l {
        (s / l + 1) as u64
    } else {
        (s / l) as u64
    }
}

/// Average height of what is left to pack once `l` is taken out, rounded.
pub open spec fn avg_high_spec(bx: Seq<(Rect, usize)>, l: Seq<Placement<Rect>>) -> u64 {
    round_div(high_sum(bx, l), left_sum(bx, l))
}

/// `g` fits in the space `s`.
pub open spec fn fits(g: RectGroup, s: Placement<Rect>) -> bool {
    &&& g.spec_w() <= s.item.spec_w()
    &&& g.spec_h() <= s.item.spec_h()
    &&& g.spec_area() <= s.item.spec_area()
}

/// Some candidate of `blk` fits in `s`.
pub open spec fn admits(blk: Seq<RectGroup>, s: Placement<Rect>) -> bool {
    exists|i: int| 0 <= i < blk.len() && fits(#[trigger] blk[i], s)
}

/// `a` comes before `b` in bottom-first, then left-first order.
pub open spec fn before(a: Placement<Rect>, b: Placement<Rect>) -> bool {
    a.y < b.y || (a.y == b.y && a.x < b.x)
}

/// Total count left over the types of `bx`, saturating.
pub open spec fn box_total(bx: Seq<(Rect, usize)>) -> u64
    decreases bx.len(),
{
    if bx.len() == 0 {
        0
    } else {
        sat64(box_total(bx.drop_last()) + bx.last().1)
    }
}

/// Every count of `bx` is zero.
pub open spec fn all_packed(bx: Seq<(Rect, usize)>) -> bool {
    forall|i: int| 0 <= i < bx.len() ==> (#[trigger] bx[i]).1 == 0
}

/// The node score: high half the count left plus the rounded average height
/// left, low half the unfilled area of the blocks' bounding box.
pub open spec fn node_score(bx: Seq<(Rect, usize)>, blocks: Seq<Placement<RectGroup>>) -> u64 {
    let heur = box_total(bx) + avg_high_spec(bx, Seq::empty());
    let area = group_w(blocks) as int * group_h(blocks) as int;
    (heur * 0x1_0000_0000 + (area - fill_sum(blocks))) as u64
}

/// Both halves of the score fit in 32 bits: the count left plus the rounded
/// average height, and the unfilled area of the blocks' bounding box, which
/// the blocks do not overfill.
pub open spec fn score_fits(bx: Seq<(Rect, usize)>, blocks: Seq<Placement<RectGroup>>) -> bool {
    let area = group_w(blocks) as int * group_h(blocks) as int;
    &&& box_total(bx) + avg_high_spec(bx, Seq::empty()) <= u32::MAX
    &&& fill_sum(blocks) <= area
    &&& area - fill_sum(blocks) <= u32::MAX
}

/// Number of rectangles equal to `k` in `items`.
pub open spec fn rect_count(items: Seq<Rect>, k: Rect) -> nat
    decreases items.len(),
{
    if items.len() == 0 {
        0
    } else {
        rect_count(items.drop_last(), k) + if items.last() == k {
            1nat
        } else {
            0nat
        }
    }
}

/// Total area of the rectangles counted in `bx`, saturating.
pub open spec fn area_total(bx: Seq<(Rect, usize)>) -> u64
    decreases bx.len(),
{
    if bx.len() == 0 {
        0
    } else {
        sat64(area_total(bx.drop_last()) + sat64(bx.last().0.spec_area() * bx.last().1))
    }
}

/// Every space of `sp` that reaches height `ymax` tops out at the same height.
pub open spec fn tops_aligned(sp: Seq<Placement<Rect>>, ymax: int) -> bool {
    forall|i: int, j: int|
        0 <= i < sp.len() && 0 <= j < sp.len() && top(#[trigger] sp[i]) >= ymax && top(
            #[trigger] sp[j],
        ) >= ymax ==> top(sp[i]) == top(sp[j])
}

/// The counts entry `e` allows single-row grids of its type up to its count
/// within the coordinate range, of positive area.
pub open spec fn gridable(e: (Rect, usize)) -> bool {
    &&& e.0.spec_w() > 0
    &&& e.0.spec_h() > 0
    &&& e.1 * e.0.spec_w() <= u32::MAX
}

/// `l` is a row of copies of `r` side by side from the origin.
pub open spec fn is_row(l: Seq<Placement<Rect>>, r: Rect) -> bool {
    forall|m: int|
        0 <= m < l.len() ==> (#[trigger] l[m]).item == r && l[m].x == sat(m * r.spec_w()) && l[m].y
            == 0
}

proof fn lemma_uniform_count(l: Seq<Placement<Rect>>, r: Rect, k: Rect)
    requires
        forall|m: int| 0 <= m < l.len() ==> (#[trigger] l[m]).item == r,
    ensures
        count_of(l, k) == if k == r {
            l.len()
        } else {
            0
        },
    decreases l.len(),
{
    if l.len() > 0 {
        let pre = l.drop_last();
        assert forall|m: int| 0 <= m < pre.len() implies (#[trigger] pre[m]).item == r by {
            assert(pre[m] == l[m]);
        }
        lemma_uniform_count(pre, r, k);
        assert(l.last() == l[l.len() - 1]);
    }
}

proof fn lemma_row_measures(l: Seq<Placement<Rect>>, r: Rect, n: nat)
    requires
        is_row(l, r),
        l.len() == n,
        n >= 1,
        n * r.spec_w() <= u32::MAX,
        r.spec_area() == r.spec_w() * r.spec_h(),
    ensures
        min_x(l) == 0,
        max_right(l) == n * r.spec_w(),
        min_y(l) == 0,
        max_top(l) == r.spec_h(),
        fill_sum(l) == n * r.spec_area(),
    decreases n,
{
    let w = r.spec_w() as int;
    let h = r.spec_h() as int;
    if n == 1 {
        assert(l[0].x == sat(0 * w));
        assert(l.len() == 1);
        assert(l.drop_last().len() == 0);
        assert(l.last() == l[0]);
        assert(fill_sum(l.drop_last()) == 0);
    } else {
        let pre = l.drop_last();
        assert(is_row(pre, r)) by {
            assert forall|m: int| 0 <= m < pre.len() implies (#[trigger] pre[m]).item == r && pre[m].x == sat(m * r.spec_w()) && pre[m].y == 0 by {
                assert(pre[m] == l[m]);
            }
        }
        assert((n - 1) * w <= n * w) by (nonlinear_arith)
            requires
                n >= 1,
                w >= 0,
        ;
        lemma_row_measures(pre, r, (n - 1) as nat);
        let last = l.last();
        assert(last == l[n - 1]);
        assert((n - 1) * w + w == n * w) by (nonlinear_arith);
        assert(last.x == (n - 1) * w);
        assert(n * r.spec_area() == n * (w * h));
        assert((n - 1) * (w * h) + w * h == n * (w * h)) by (nonlinear_arith);
        assert(n * (w * h) <= u64::MAX) by (nonlinear_arith)
            requires
                n * w <= u32::MAX,
                h <= u32::MAX,
                w >= 0,
                h >= 0,
        ;
    }
}

/// Adding a candidate keeps every single-type count that was covered.
proof fn lemma_push_keeps_pure(blk: Seq<RectGroup>, g: RectGroup, bx: Seq<(Rect, usize)>)
    ensures
        forall|t: int, c: nat|
            #![trigger pure_at(blk.push(g), bx, t, c)]
            pure_at(blk, bx, t, c) ==> pure_at(blk.push(g), bx, t, c),
{
    assert forall|t: int, c: nat| #[trigger] pure_at(blk, bx, t, c) implies pure_at(blk.push(g), bx, t, c) by {
        let i = choose|i: int|
            0 <= i < blk.len() && count_of((#[trigger] blk[i]).spec_list(), bx[t].0) == c && forall|u: int|
                0 <= u < bx.len() && u != t ==> count_of(blk[i].spec_list(), #[trigger] bx[u].0) == 0;
        assert(blk.push(g)[i] == blk[i]);
    }
}

/// Single-type coverage gives plain coverage: each count of each type is
/// held by some candidate.
pub proof fn lemma_pure_cover_covers(blk: Seq<RectGroup>, bx: Seq<(Rect, usize)>)
    requires
        pure_cover(blk, bx),
    ensures
        forall|t: int, c: nat| 0 <= t < bx.len() && 1 <= c <= bx[t].1 ==> #[trigger] covers(blk, bx[t].0, c),
{
    assert forall|t: int, c: nat| 0 <= t < bx.len() && 1 <= c <= bx[t].1 implies #[trigger] covers(blk, bx[t].0, c) by {
        assert(pure_at(blk, bx, t, c));
        let i = choose|i: int|
            0 <= i < blk.len() && count_of((#[trigger] blk[i]).spec_list(), bx[t].0) == c && forall|u: int|
                0 <= u < bx.len() && u != t ==> count_of(blk[i].spec_list(), #[trigger] bx[u].0) == 0;
        assert(count_of(blk[i].spec_list(), bx[t].0) == c);
    }
}

/// The types of `bx` are distinct.
pub open spec fn keys_distinct(bx: Seq<(Rect, usize)>) -> bool {
    forall|i: int, j: int| 0 <= i < j < bx.len() ==> (#[trigger] bx[i]).0 != (#[trigger] bx[j]).0
}

/// Some candidate of `blk` holds exactly `c` rectangles of the type of entry
/// `t` of `bx` and none of any other type of `bx`.
pub open spec fn pure_at(blk: Seq<RectGroup>, bx: Seq<(Rect, usize)>, t: int, c: nat) -> bool {
    exists|i: int|
        0 <= i < blk.len() && count_of((#[trigger] blk[i]).spec_list(), bx[t].0) == c && forall|u: int|
            0 <= u < bx.len() && u != t ==> count_of(blk[i].spec_list(), #[trigger] bx[u].0) == 0
}

/// For each type and each count from one up to what is left, a candidate of
/// that type alone holds exactly that count.
pub open spec fn pure_cover(blk: Seq<RectGroup>, bx: Seq<(Rect, usize)>) -> bool {
    forall|t: int, c: nat| 0 <= t < bx.len() && 1 <= c <= bx[t].1 ==> #[trigger] pure_at(blk, bx, t, c)
}

/// Some candidate of `blk` holds exactly `c` rectangles of type `k`.
pub open spec fn covers(blk: Seq<RectGroup>, k: Rect, c: nat) -> bool {
    exists|i: int| 0 <= i < blk.len() && count_of((#[trigger] blk[i]).spec_list(), k) == c
}

/// A node of the packing search.
pub struct BspaNode {
    spaces: Vec<Placement<Rect>>,
    blocks: Vec<Placement<RectGroup>>,
    avai_box: Vec<(Rect, usize)>,
    avai_blk: Vec<RectGroup>,
}

impl BspaNode {
    /// Free spaces of the container.
    pub closed spec fn spec_spaces(&self) -> Seq<Placement<Rect>> {
        self.spaces@
    }

    /// Blocks placed so far.
    pub closed spec fn spec_blocks(&self) -> Seq<Placement<RectGroup>> {
        self.blocks@
    }

    /// Source rectangle types with the count of each still to pack.
    pub closed spec fn spec_box(&self) -> Seq<(Rect, usize)> {
        self.avai_box@
    }

    /// Candidate blocks still allowed by the counts.
    pub closed spec fn spec_blk(&self) -> Seq<RectGroup> {
        self.avai_blk@
    }

    /// The packing invariants: blocks are well formed and pairwise disjoint,
    /// no free space overlaps a block, and every candidate block is well
    /// formed and within the counts left.
    pub open spec fn wf(&self) -> bool {
        &&& blocks_disjoint(self.spec_blocks())
        &&& spaces_clear(self.spec_spaces(), self.spec_blocks())
        &&& forall|i: int| 0 <= i < self.spec_blocks().len() ==> (#[trigger] self.spec_blocks()[i]).item.wf()
        &&& forall|i: int|
            0 <= i < self.spec_blk().len() ==> (#[trigger] self.spec_blk()[i]).wf() && respects(
                self.spec_blk()[i],
                self.spec_box(),
            )
    }

    /// The blocks placed so far.
    pub fn blocks(&self) -> (r: &[Placement<RectGroup>])
        ensures
            r@ == self.spec_blocks(),
    {
        self.blocks.as_slice()
    }
}

/// Number of rectangles of type `k` in `l`.
fn count_in(l: &[Placement<Rect>], k: Rect) -> (r: usize)
    ensures
        r == count_of(l@, k),
{
    let mut c: usize = 0;
    let mut i: usize = 0;
    while i < l.len()
        invariant
            i <= l@.len(),
            c == count_of(l@.subrange(0, i as int), k),
            c <= i,
        decreases l@.len() - i,
    {
        proof {
            let post = l@.subrange(0, i + 1);
            assert(post.drop_last() =~= l@.subrange(0, i as int));
            assert(post.last() == l@[i as int]);
        }
        if l[i].item == k {
            c = c + 1;
        }
        i = i + 1;
    }
    proof {
        assert(l@.subrange(0, l@.len() as int) =~= l@);
    }
    c
}

/// Whether `g` stays within the counts of `bx`.
fn respects_exec(g: &RectGroup, bx: &Vec<(Rect, usize)>) -> (r: bool)
    ensures
        r == respects(*g, bx@),
{
    let l = g.list();
    let mut i: usize = 0;
    while i < bx.len()
        invariant
            l@ == g.spec_list(),
            i <= bx@.len(),
            forall|j: int| 0 <= j < i ==> count_of(g.spec_list(), #[trigger] bx@[j].0) <= bx@[j].1,
        decreases bx@.len() - i,
    {
        let (k, v) = bx[i];
        if count_in(l, k) > v {
            return false;
        }
        i = i + 1;
    }
    true
}


/// Rounded average height of what is left to pack once `l` is taken out.
fn avg_high(bx: &Vec<(Rect, usize)>, l: &[Placement<Rect>]) -> (r: u64)
    ensures
        r == avg_high_spec(bx@, l@),
{
    let mut hs: u64 = 0;
    let mut ls: u64 = 0;
    let mut i: usize = 0;
    while i < bx.len()
        invariant
            i <= bx@.len(),
            hs == high_sum(bx@.subrange(0, i as int), l@),
            ls == left_sum(bx@.subrange(0, i as int), l@),
        decreases bx@.len() - i,
    {
        let (k, v) = bx[i];
        let d = v.saturating_sub(count_in(l, k));
        proof {
            let post = bx@.subrange(0, i + 1);
            assert(post.drop_last() =~= bx@.subrange(0, i as int));
            assert(post.last() == (k, v));
        }
        proof {
            assert(k.spec_h() as int * d as int <= u32::MAX as int * usize::MAX as int) by (nonlinear_arith)
                requires
                    k.spec_h() <= u32::MAX,
                    d <= usize::MAX,
            ;
            assert(u32::MAX as int * usize::MAX as int <= u128::MAX) by (nonlinear_arith)
                requires
                    usize::MAX <= u64::MAX,
            ;
        }
        let hd: u128 = k.h() as u128 * d as u128;
        let hd64: u64 = if hd > u64::MAX as u128 {
            u64::MAX
        } else {
            hd as u64
        };
        hs = hs.saturating_add(hd64);
        ls = ls.saturating_add(d as u64);
        i = i + 1;
    }
    proof {
        assert(bx@.subrange(0, bx@.len() as int) =~= bx@);
    }
    if ls == 0 {
        0
    } else {
        let q = hs / ls;
        let rem = hs % ls;
        if rem >= ls - rem {
            proof {
                assert(q < u64::MAX) by (nonlinear_arith)
                    requires
                        ls > 0,
                        rem == hs % ls,
                        q == hs / ls,
                        rem >= ls - rem,
                ;
            }
            q + 1
        } else {
            q
        }
    }
}

/// Positions of the `pool` smallest keys, smallest first; all positions when
/// there are fewer than `pool`. Among equal keys the earlier position goes
/// first.
pub fn pick_smallest(keys: &Vec<u64>, pool: usize) -> (r: Vec<usize>)
    ensures
        r@.len() <= pool,
        r@.len() < pool ==> forall|j: usize| j < keys@.len() ==> #[trigger] r@.contains(j),
        forall|m: int| 0 <= m < r@.len() ==> #[trigger] r@[m] < keys@.len(),
        r@.no_duplicates(),
        forall|m: int| 0 < m < r@.len() ==> keys@[r@[m - 1] as int] <= #[trigger] keys@[r@[m] as int],
        forall|j: int|
            0 <= j < keys@.len() && r@.len() > 0 && !r@.contains(j as usize) ==> keys@[r@.last() as int]
                <= #[trigger] keys@[j],
        r@ == picks(keys@, pool as nat),
{
    let n = keys.len();
    let mut taken: Vec<bool> = Vec::new();
    let mut i: usize = 0;
    while i < n
        invariant
            n == keys@.len(),
            i <= n,
            taken@.len() == i,
            forall|j: int| 0 <= j < i ==> !(#[trigger] taken@[j]),
        decreases n - i,
    {
        taken.push(false);
        i = i + 1;
    }
    let mut r: Vec<usize> = Vec::new();
    while r.len() < pool
        invariant
            n == keys@.len(),
            taken@.len() == n,
            r@.len() <= pool,
            forall|j: int| 0 <= j < n ==> (#[trigger] taken@[j] <==> r@.contains(j as usize)),
            forall|m: int| 0 <= m < r@.len() ==> #[trigger] r@[m] < n,
            r@.no_duplicates(),
            forall|m: int| 0 < m < r@.len() ==> keys@[r@[m - 1] as int] <= #[trigger] keys@[r@[m] as int],
            forall|j: int|
                0 <= j < n && r@.len() > 0 && !r@.contains(j as usize) ==> keys@[r@.last() as int]
                    <= #[trigger] keys@[j],
                r@ == picks(keys@, r@.len() as nat),
        decreases pool - r@.len(),
    {
        let mut best: usize = n;
        let mut k: usize = 0;
        while k < n
            invariant
                n == keys@.len(),
                taken@.len() == n,
                k <= n,
                best == n || (best < k && !taken@[best as int]),
                best == n ==> forall|j: int| 0 <= j < k ==> #[trigger] taken@[j],
                best < n ==> forall|j: int| 0 <= j < k && !taken@[j] ==> keys@[best as int] <= #[trigger] keys@[j],
                best == argmin_free(keys@, r@, k as int),
                forall|j: int| 0 <= j < n ==> (#[trigger] taken@[j] <==> r@.contains(j as usize)),
            decreases n - k,
        {
            if !taken[k] && (best == n || keys[k] < keys[best]) {
                best = k;
            }
            k = k + 1;
        }
        if best == n {
            proof {
                assert forall|j: usize| j < keys@.len() implies #[trigger] r@.contains(j) by {
                    assert(taken@[j as int]);
                }
                lemma_picks_stuck(keys@, r@.len() as nat, pool as nat);
            }
            return r;
        }
        let ghost prev = r@;
        proof {
            assert(picks(keys@, (prev.len() + 1) as nat) == prev.push(best));
            assert(!prev.contains(best));
            assert(prev.len() > 0 ==> keys@[prev.last() as int] <= keys@[best as int]);
        }
        taken.set(best, true);
        r.push(best);
        proof {
            assert forall|j: int| 0 <= j < n implies (#[trigger] taken@[j] <==> r@.contains(j as usize)) by {
                if j == best {
                    assert(r@[r@.len() - 1] == best);
                } else {
                    if prev.contains(j as usize) {
                        let m = choose|m: int| 0 <= m < prev.len() && prev[m] == j as usize;
                        assert(r@[m] == j as usize);
                    }
                    if r@.contains(j as usize) {
                        let m = choose|m: int| 0 <= m < r@.len() && r@[m] == j as usize;
                        assert(m < prev.len());
                        assert(prev[m] == j as usize);
                    }
                }
            }
            assert forall|a: int, b: int| 0 <= a < r@.len() && 0 <= b < r@.len() && a != b implies r@[a] != r@[b] by {
                if a == prev.len() {
                    assert(prev.contains(r@[b]));
                } else if b == prev.len() {
                    assert(prev.contains(r@[a]));
                }
            }
            assert forall|j: int| 0 <= j < n && !r@.contains(j as usize) implies keys@[r@.last() as int]
                <= #[trigger] keys@[j] by {
                assert(!taken@[j]);
            }
            assert forall|m: int| 0 < m < r@.len() implies keys@[r@[m - 1] as int] <= #[trigger] keys@[r@[m] as int] by {
                if m == prev.len() {
                    assert(r@[m - 1] == prev.last());
                } else {
                    assert(r@[m - 1] == prev[m - 1]);
                    assert(r@[m] == prev[m]);
                }
            }
        }
    }
    r
}

/// The types of `items`, in order of first appearance, each with its count.
fn count_items(items: &[Rect]) -> (r: Vec<(Rect, usize)>)
    ensures
        forall|i: int, j: int| 0 <= i < j < r@.len() ==> (#[trigger] r@[i]).0 != (#[trigger] r@[j]).0,
        forall|i: int| 0 <= i < r@.len() ==> (#[trigger] r@[i]).1 == rect_count(items@, r@[i].0),
        forall|i: int|
            0 <= i < items@.len() ==> exists|j: int| 0 <= j < r@.len() && (#[trigger] r@[j]).0 == #[trigger] items@[i],
{
    let mut r: Vec<(Rect, usize)> = Vec::new();
    let mut i: usize = 0;
    while i < items.len()
        invariant
            i <= items@.len(),
            forall|a: int, b: int| 0 <= a < b < r@.len() ==> (#[trigger] r@[a]).0 != (#[trigger] r@[b]).0,
            forall|a: int|
                0 <= a < r@.len() ==> (#[trigger] r@[a]).1 == rect_count(
                    items@.subrange(0, i as int),
                    r@[a].0,
                ),
            forall|a: int|
                0 <= a < i ==> exists|j: int| 0 <= j < r@.len() && (#[trigger] r@[j]).0 == #[trigger] items@[a],
            forall|k: Rect|
                rect_count(items@.subrange(0, i as int), k) > 0 ==> exists|j: int|
                    0 <= j < r@.len() && (#[trigger] r@[j]).0 == k,
            forall|k: Rect| #[trigger] rect_count(items@.subrange(0, i as int), k) <= i,
        decreases items@.len() - i,
    {
        let k = items[i];
        let ghost pre = items@.subrange(0, i as int);
        let ghost post = items@.subrange(0, i + 1);
        proof {
            assert(post.drop_last() =~= pre);
            assert(post.last() == k);
        }
        let mut j: usize = 0;
        let mut found = false;
        while j < r.len() && !found
            invariant
                j <= r@.len(),
                found ==> j < r@.len() && r@[j as int].0 == k,
                !found ==> forall|a: int| 0 <= a < j ==> (#[trigger] r@[a]).0 != k,
            decreases r@.len() - j + if found {
                0int
            } else {
                1int
            },
        {
            if r[j].0 == k {
                found = true;
            } else {
                j = j + 1;
            }
        }
        let ghost before = r@;
        if found {
            let c = r[j].1;
            proof {
                assert(c == rect_count(pre, r@[j as int].0));
                assert(rect_count(pre, k) <= i);
            }
            r.set(j, (k, c + 1));
        } else {
            r.push((k, 1));
            proof {
                assert(rect_count(pre, k) == 0) by {
                    if rect_count(pre, k) > 0 {
                        let q = choose|q: int| 0 <= q < before.len() && before[q].0 == k;
                        assert(before[q].0 != k);
                    }
                }
            }
        }
        proof {
            assert forall|a: int, b: int| 0 <= a < b < r@.len() implies (#[trigger] r@[a]).0 != (#[trigger] r@[b]).0 by {
                if b == before.len() {
                    assert(r@[a] == before[a]);
                } else {
                    assert(r@[a].0 == before[a].0);
                    assert(r@[b].0 == before[b].0);
                }
            }
            assert forall|a: int| 0 <= a < r@.len() implies (#[trigger] r@[a]).1 == rect_count(post, r@[a].0) by {
                if a < before.len() && r@[a].0 != k {
                    assert(r@[a] == before[a]);
                }
            }
            assert forall|a: int| 0 <= a < i + 1 implies exists|q: int| 0 <= q < r@.len() && (#[trigger] r@[q]).0 == #[trigger] items@[a] by {
                if a == i {
                    if found {
                        assert(r@[j as int].0 == k);
                    } else {
                        assert(r@[r@.len() - 1].0 == k);
                    }
                } else {
                    let q = choose|q: int| 0 <= q < before.len() && (#[trigger] before[q]).0 == items@[a];
                    assert(r@[q].0 == before[q].0);
                }
            }
            assert forall|x: Rect| rect_count(post, x) > 0 implies exists|q: int| 0 <= q < r@.len() && (#[trigger] r@[q]).0 == x by {
                if x == k {
                    if found {
                        assert(r@[j as int].0 == k);
                    } else {
                        assert(r@[r@.len() - 1].0 == k);
                    }
                } else {
                    assert(rect_count(pre, x) > 0);
                    let q = choose|q: int| 0 <= q < before.len() && (#[trigger] before[q]).0 == x;
                    assert(r@[q].0 == before[q].0);
                }
            }
            assert forall|x: Rect| #[trigger] rect_count(post, x) <= i + 1 by {
                assert(rect_count(pre, x) <= i);
            }
        }
        i = i + 1;
    }
    proof {
        assert(items@.subrange(0, items@.len() as int) =~= items@);
    }
    r
}

/// Whether the filled share of `g`'s area is at least `f_num / f_den`.
fn fill_ok(g: &RectGroup, f_num: u64, f_den: u64) -> (r: bool)
    ensures
        r == (g.spec_area() > 0 && g.spec_fill() as int * f_den as int >= g.spec_area() as int
            * f_num as int),
{
    proof {
        assert(g.spec_fill() as int * f_den as int <= u64::MAX as int * u64::MAX as int) by (nonlinear_arith)
            requires
                g.spec_fill() <= u64::MAX,
                f_den <= u64::MAX,
        ;
        assert(g.spec_area() as int * f_num as int <= u64::MAX as int * u64::MAX as int) by (nonlinear_arith)
            requires
                g.spec_area() <= u64::MAX,
                f_num <= u64::MAX,
        ;
        assert(u64::MAX as int * u64::MAX as int <= u128::MAX) by (nonlinear_arith);
    }
    g.area() > 0 && g.fill_area() as u128 * f_den as u128 >= g.area() as u128 * f_num as u128
}

/// `a * b`, capped at `u32::MAX`.
fn mul_cap(a: usize, b: u32) -> (r: u32)
    ensures
        r == sat(a * b),
{
    proof {
        assert(a as int * b as int <= usize::MAX as int * u32::MAX as int) by (nonlinear_arith)
            requires
                a <= usize::MAX,
                b <= u32::MAX,
        ;
        assert(usize::MAX as int * u32::MAX as int <= u128::MAX) by (nonlinear_arith)
            requires
                usize::MAX <= u64::MAX,
        ;
    }
    let p: u128 = a as u128 * b as u128;
    if p > u32::MAX as u128 {
        u32::MAX
    } else {
        p as u32
    }
}

/// For each type `t` with count `c`: the grids of `gw` columns by `gl` rows
/// of `t` for `1 <= gw <= c` and `1 <= gl <= c / gw`, columns outermost,
/// kept when their filled share is at least `f_num / f_den`. With a share of
/// at most one, every type whose rows fit the coordinate range gets a single
/// row of each length up to its count.
fn grids(bx: &Vec<(Rect, usize)>, f_num: u64, f_den: u64) -> (r: Vec<RectGroup>)
    ensures
        forall|m: int| 0 <= m < r@.len() ==> (#[trigger] r@[m]).wf(),
        forall|m: int| 0 <= m < r@.len() ==> fill_share_ok(#[trigger] r@[m], f_num, f_den) && uniform(r@[m]),
        lists(r@) == grids_spec(bx@, bx@.len() as nat, f_num, f_den),
        keys_distinct(bx@) && f_num <= f_den ==> forall|t: int, c: nat|
            0 <= t < bx@.len() && 1 <= c <= bx@[t].1 && gridable(bx@[t]) ==> #[trigger] pure_at(
                r@,
                bx@,
                t,
                c,
            ),
{
    let mut out: Vec<RectGroup> = Vec::new();
    let mut t: usize = 0;
    while t < bx.len()
        invariant
            t <= bx@.len(),
            forall|m: int| 0 <= m < out@.len() ==> (#[trigger] out@[m]).wf(),
                forall|m: int| 0 <= m < out@.len() ==> fill_share_ok(#[trigger] out@[m], f_num, f_den) && uniform(out@[m]),
            keys_distinct(bx@) && f_num <= f_den ==> forall|t2: int, c: nat|
                0 <= t2 < t && 1 <= c <= bx@[t2].1 && gridable(bx@[t2]) ==> #[trigger] pure_at(
                    out@,
                    bx@,
                    t2,
                    c,
                ),
            lists(out@) == grids_spec(bx@, t as nat, f_num, f_den),
        decreases bx@.len() - t,
    {
        let (bt, bc) = bx[t];
        let (bw, bh) = bt.dims();
        let mut gw0: usize = 0;
        proof {
            assert(lists(out@) =~= grids_spec(bx@, t as nat, f_num, f_den) + grids_gw(bt, bc as nat, 0, f_num, f_den));
        }
        while gw0 < bc
            invariant
                gw0 <= bc,
                t < bx@.len(),
                (bt, bc) == bx@[t as int],
                bt.spec_w() == bw,
                bt.spec_h() == bh,
                bt.spec_area() == bw * bh,
                forall|m: int| 0 <= m < out@.len() ==> (#[trigger] out@[m]).wf(),
                forall|m: int| 0 <= m < out@.len() ==> fill_share_ok(#[trigger] out@[m], f_num, f_den) && uniform(out@[m]),
                keys_distinct(bx@) && f_num <= f_den ==> forall|t2: int, c: nat|
                    0 <= t2 < t && 1 <= c <= bx@[t2].1 && gridable(bx@[t2]) ==> #[trigger] pure_at(
                        out@,
                        bx@,
                        t2,
                        c,
                    ),
                keys_distinct(bx@) && f_num <= f_den && gridable(bx@[t as int]) ==> forall|c: nat|
                    1 <= c <= gw0 ==> #[trigger] pure_at(out@, bx@, t as int, c),
                lists(out@) == grids_spec(bx@, t as nat, f_num, f_den) + grids_gw(bt, bc as nat, gw0 as nat, f_num, f_den),
            decreases bc - gw0,
        {
            let gw = gw0 + 1;
            let mut gl0: usize = 0;
            proof {
                assert(lists(out@) =~= grids_spec(bx@, t as nat, f_num, f_den) + grids_gw(bt, bc as nat, gw0 as nat, f_num, f_den)
                    + grids_gl(bt, gw as nat, 0, f_num, f_den));
            }
            while gl0 < bc / gw
                invariant
                    gl0 <= bc / gw,
                    gw == gw0 + 1,
                    gw0 < bc,
                    t < bx@.len(),
                    (bt, bc) == bx@[t as int],
                    bt.spec_w() == bw,
                    bt.spec_h() == bh,
                    bt.spec_area() == bw * bh,
                    forall|m: int| 0 <= m < out@.len() ==> (#[trigger] out@[m]).wf(),
                forall|m: int| 0 <= m < out@.len() ==> fill_share_ok(#[trigger] out@[m], f_num, f_den) && uniform(out@[m]),
                    keys_distinct(bx@) && f_num <= f_den ==> forall|t2: int, c: nat|
                        0 <= t2 < t && 1 <= c <= bx@[t2].1 && gridable(bx@[t2]) ==> #[trigger] pure_at(
                            out@,
                            bx@,
                            t2,
                            c,
                        ),
                    keys_distinct(bx@) && f_num <= f_den && gridable(bx@[t as int]) ==> forall|c: nat|
                        1 <= c <= gw0 ==> #[trigger] pure_at(out@, bx@, t as int, c),
                    keys_distinct(bx@) && f_num <= f_den && gridable(bx@[t as int]) && gl0 >= 1
                        ==> pure_at(out@, bx@, t as int, gw as nat),
                    lists(out@) == grids_spec(bx@, t as nat, f_num, f_den) + grids_gw(bt, bc as nat, gw0 as nat, f_num, f_den)
                        + grids_gl(bt, gw as nat, gl0 as nat, f_num, f_den),
                decreases bc / gw - gl0,
            {
                let gl = gl0 + 1;
                let mut list: Vec<Placement<Rect>> = Vec::new();
                let mut x: usize = 0;
                proof {
                    assert(list@ =~= grid_list(bt, 0, gl as nat));
                }
                while x < gw
                    invariant
                        x <= gw,
                        gl >= 1,
                        forall|m: int| 0 <= m < list@.len() ==> (#[trigger] list@[m]).item == bt,
                        gl == 1 ==> list@.len() == x && is_row(list@, bt),
                        list@ == grid_list(bt, x as nat, gl as nat),
                    decreases gw - x,
                {
                    let mut y: usize = 0;
                    proof {
                        assert(list@ =~= grid_list(bt, x as nat, gl as nat) + column_part(bt, x as nat, 0));
                    }
                    while y < gl
                        invariant
                            y <= gl,
                            x < gw,
                            gl >= 1,
                            forall|m: int| 0 <= m < list@.len() ==> (#[trigger] list@[m]).item == bt,
                            gl == 1 ==> list@.len() == x + y && is_row(list@, bt),
                            list@ == grid_list(bt, x as nat, gl as nat) + column_part(bt, x as nat, y as nat),
                        decreases gl - y,
                    {
                        let ghost before = list@;
                        let px = mul_cap(x, bt.w());
                        let py = mul_cap(y, bt.h());
                        list.push(Placement { x: px, y: py, item: bt });
                        proof {
                            assert forall|m: int| 0 <= m < list@.len() implies (#[trigger] list@[m]).item == bt by {
                                if m < before.len() {
                                    assert(list@[m] == before[m]);
                                }
                            }
                            if gl == 1 {
                                assert(y == 0);
                                assert(before.len() == x);
                                assert(y as int * bt.spec_h() == 0) by (nonlinear_arith)
                                    requires
                                        y == 0,
                                ;
                                assert(py == 0);
                                assert(px == sat(x as int * bt.spec_w()));
                                assert(list@[x as int] == Placement { x: px, y: py, item: bt });
                                assert forall|m: int| 0 <= m < list@.len() implies (#[trigger] list@[m]).item == bt
                                    && list@[m].x == sat(m * bt.spec_w()) && list@[m].y == 0 by {
                                    if m < before.len() {
                                        assert(list@[m] == before[m]);
                                    }
                                }
                            }
                        }
                        proof {
                            assert(list@ =~= grid_list(bt, x as nat, gl as nat) + column_part(
                                bt,
                                x as nat,
                                (y + 1) as nat,
                            ));
                        }
                        y = y + 1;
                    }
                    proof {
                        lemma_grid_extend(bt, x as nat, gl as nat);
                    }
                    x = x + 1;
                }
                let g = RectGroup::from_list(list);
                let ghost gl_one = gl == 1;
                let ok = fill_ok(&g, f_num, f_den);
                proof {
                    if keys_distinct(bx@) && f_num <= f_den && gridable(bx@[t as int]) && gl == 1 {
                        let l = g.spec_list();
                        assert(gw * bw <= bc * bw) by (nonlinear_arith)
                            requires
                                gw <= bc,
                        ;
                        lemma_row_measures(l, bt, gw as nat);
                        assert(g.spec_w() == gw * bw);
                        assert(g.spec_h() == bh);
                        assert(g.spec_fill() == gw * (bw * bh));
                        assert(g.spec_area() == (gw * bw) * bh);
                        assert(gw * (bw * bh) == (gw * bw) * bh) by (nonlinear_arith);
                        assert((gw * bw) * bh > 0) by (nonlinear_arith)
                            requires
                                gw >= 1,
                                bw >= 1,
                                bh >= 1,
                        ;
                        let a = g.spec_area() as int;
                        assert(a * f_den >= a * f_num) by (nonlinear_arith)
                            requires
                                a >= 0,
                                f_den >= f_num,
                        ;
                        assert(ok);
                    }
                }
                let ghost pre_lists = lists(out@);
                proof {
                    assert(ok == list_fill_ok(grid_list(bt, gw as nat, gl as nat), f_num, f_den));
                }
                if ok {
                    let ghost before = out@;
                    out.push(g);
                    proof {
                        assert(lists(out@) =~= pre_lists.push(g.spec_list()));
                    }
                    proof {
                        assert(uniform(g)) by {
                            assert forall|i: int| 0 <= i < g.spec_list().len() implies (#[trigger] g.spec_list()[i]).item
                                == g.spec_list()[0].item by {
                                assert(g.spec_list()[i].item == bt);
                            }
                        }
                        assert forall|m: int| 0 <= m < out@.len() implies fill_share_ok(#[trigger] out@[m], f_num, f_den)
                            && uniform(out@[m]) by {
                            if m < before.len() {
                                assert(out@[m] == before[m]);
                            }
                        }
                        lemma_push_keeps_pure(before, g, bx@);
                        if keys_distinct(bx@) && f_num <= f_den && gridable(bx@[t as int]) && gl == 1 {
                            let l = g.spec_list();
                            assert forall|u: int| 0 <= u < bx@.len() && u != t implies count_of(
                                out@[out@.len() - 1].spec_list(),
                                #[trigger] bx@[u].0,
                            ) == 0 by {
                                lemma_uniform_count(l, bt, bx@[u].0);
                            }
                            lemma_uniform_count(l, bt, bt);
                            assert(count_of(out@[out@.len() - 1].spec_list(), bx@[t as int].0) == gw);
                            assert(pure_at(out@, bx@, t as int, gw as nat));
                        }
                    }
                }
                proof {
                    let base = grids_spec(bx@, t as nat, f_num, f_den) + grids_gw(bt, bc as nat, gw0 as nat, f_num, f_den);
                    assert(lists(out@) =~= base + grids_gl(bt, gw as nat, gl as nat, f_num, f_den));
                }
                gl0 = gl0 + 1;
            }
            proof {
                assert(grids_gw(bt, bc as nat, gw as nat, f_num, f_den) =~= grids_gw(bt, bc as nat, gw0 as nat, f_num, f_den)
                    + grids_gl(bt, gw as nat, (bc / gw) as nat, f_num, f_den));
                assert(lists(out@) =~= grids_spec(bx@, t as nat, f_num, f_den) + grids_gw(bt, bc as nat, gw as nat, f_num, f_den));
            }
            proof {
                if keys_distinct(bx@) && f_num <= f_den && gridable(bx@[t as int]) {
                    assert(bc / gw >= 1) by (nonlinear_arith)
                        requires
                            1 <= gw <= bc,
                    ;
                }
            }
            gw0 = gw0 + 1;
        }
        proof {
            assert(lists(out@) =~= grids_spec(bx@, (t + 1) as nat, f_num, f_den));
        }
        t = t + 1;
    }
    out
}

/// A well-formed node whose candidates cover each count of each type with a
/// candidate of that type alone meets every invariant that
/// `assert_node_expand` tests.
pub proof fn law_invariants_imply_expand_ok(x: &BspaNode)
    requires
        x.wf(),
        pure_cover(x.spec_blk(), x.spec_box()),
    ensures
        x.expand_ok(),
{
    lemma_pure_cover_covers(x.spec_blk(), x.spec_box());
}

/// Whether some candidate of `blk` holds exactly `c` rectangles of type `k`.
fn covers_exec(blk: &Vec<RectGroup>, k: Rect, c: usize) -> (r: bool)
    ensures
        r == covers(blk@, k, c as nat),
{
    let mut i: usize = 0;
    while i < blk.len()
        invariant
            i <= blk@.len(),
            forall|j: int| 0 <= j < i ==> count_of((#[trigger] blk@[j]).spec_list(), k) != c,
        decreases blk@.len() - i,
    {
        if count_in(blk[i].list(), k) == c {
            proof {
                assert(count_of(blk@[i as int].spec_list(), k) == c);
            }
            return true;
        }
        i = i + 1;
    }
    false
}

/// Tests the invariants that every child of the search keeps: no two blocks
/// overlap, no space overlaps a block, every candidate is within the counts,
/// and each count of each type is held by some candidate.
pub fn assert_node_expand(x: &BspaNode) -> (r: bool)
    ensures
        r == x.expand_ok(),
{
    let b = x.blocks.as_slice();
    let mut i: usize = 0;
    while i < b.len()
        invariant
            b@ == x.spec_blocks(),
            i <= b@.len(),
            forall|p: int, q: int|
                0 <= p < i && 0 <= q < b@.len() && p != q ==> !overlap(#[trigger] b@[p], #[trigger] b@[q]),
        decreases b@.len() - i,
    {
        let mut j: usize = 0;
        while j < b.len()
            invariant
                b@ == x.spec_blocks(),
                i < b@.len(),
                j <= b@.len(),
                forall|p: int, q: int|
                    0 <= p < i && 0 <= q < b@.len() && p != q ==> !overlap(#[trigger] b@[p], #[trigger] b@[q]),
                forall|q: int| 0 <= q < j && q != i ==> !overlap(b@[i as int], #[trigger] b@[q]),
            decreases b@.len() - j,
        {
            if i != j && b[i].overlaps(&b[j]) {
                return false;
            }
            j = j + 1;
        }
        i = i + 1;
    }
    let sp = x.spaces.as_slice();
    let mut i: usize = 0;
    while i < sp.len()
        invariant
            b@ == x.spec_blocks(),
            sp@ == x.spec_spaces(),
            blocks_disjoint(x.spec_blocks()),
            i <= sp@.len(),
            forall|p: int, q: int| 0 <= p < i && 0 <= q < b@.len() ==> !overlap(#[trigger] sp@[p], #[trigger] b@[q]),
        decreases sp@.len() - i,
    {
        let mut j: usize = 0;
        while j < b.len()
            invariant
                b@ == x.spec_blocks(),
                sp@ == x.spec_spaces(),
                i < sp@.len(),
                j <= b@.len(),
                forall|p: int, q: int| 0 <= p < i && 0 <= q < b@.len() ==> !overlap(#[trigger] sp@[p], #[trigger] b@[q]),
                forall|q: int| 0 <= q < j ==> !overlap(sp@[i as int], #[trigger] b@[q]),
            decreases b@.len() - j,
        {
            if sp[i].overlaps(&b[j]) {
                return false;
            }
            j = j + 1;
        }
        i = i + 1;
    }
    let mut i: usize = 0;
    while i < x.avai_blk.len()
        invariant
            blocks_disjoint(x.spec_blocks()),
            spaces_clear(x.spec_spaces(), x.spec_blocks()),
            i <= x.avai_blk@.len(),
            forall|p: int| 0 <= p < i ==> respects(#[trigger] x.avai_blk@[p], x.avai_box@),
        decreases x.avai_blk@.len() - i,
    {
        if !respects_exec(&x.avai_blk[i], &x.avai_box) {
            proof {
                assert(!respects(x.spec_blk()[i as int], x.spec_box()));
            }
            return false;
        }
        i = i + 1;
    }
    let mut t: usize = 0;
    while t < x.avai_box.len()
        invariant
            blocks_disjoint(x.spec_blocks()),
            spaces_clear(x.spec_spaces(), x.spec_blocks()),
            forall|p: int| 0 <= p < x.avai_blk@.len() ==> respects(#[trigger] x.avai_blk@[p], x.avai_box@),
            t <= x.avai_box@.len(),
            forall|u: int, c: nat|
                0 <= u < t && 1 <= c <= x.avai_box@[u].1 ==> #[trigger] covers(x.avai_blk@, x.avai_box@[u].0, c),
        decreases x.avai_box@.len() - t,
    {
        let (k, v) = x.avai_box[t];
        let mut c0: usize = 0;
        while c0 < v
            invariant
                c0 <= v,
                (k, v) == x.avai_box@[t as int],
                t < x.avai_box@.len(),
                forall|u: int, e: nat|
                    0 <= u < t && 1 <= e <= x.avai_box@[u].1 ==> #[trigger] covers(x.avai_blk@, x.avai_box@[u].0, e),
                forall|e: nat| 1 <= e <= c0 ==> #[trigger] covers(x.avai_blk@, k, e),
            decreases v - c0,
        {
            let c = c0 + 1;
            if !covers_exec(&x.avai_blk, k, c) {
                proof {
                    assert(!covers(x.spec_blk(), x.spec_box()[t as int].0, c as nat));
                }
                return false;
            }
            c0 = c;
        }
        proof {
            assert forall|u: int, e: nat|
                0 <= u < t + 1 && 1 <= e <= x.avai_box@[u].1 implies #[trigger] covers(x.avai_blk@, x.avai_box@[u].0, e) by {
                if u == t {
                    assert(covers(x.avai_blk@, k, e));
                }
            }
        }
        t = t + 1;
    }
    true
}

/// Tests that every space reaching the blocks' height tops out at the same
/// height.
pub fn assert_node_inflate(x: &BspaNode) -> (r: bool)
    ensures
        r == tops_aligned(x.spec_spaces(), group_h(x.spec_blocks()) as int),
{
    let (_, bh, _) = bounds(x.blocks.as_slice());
    let sp = x.spaces.as_slice();
    let mut first: u64 = 0;
    let mut seen = false;
    let mut i: usize = 0;
    while i < sp.len()
        invariant
            sp@ == x.spec_spaces(),
            bh == group_h(x.spec_blocks()),
            i <= sp@.len(),
            seen ==> exists|p: int| 0 <= p < i && top(#[trigger] sp@[p]) >= bh && top(sp@[p]) == first,
            seen ==> forall|p: int| 0 <= p < i && top(#[trigger] sp@[p]) >= bh ==> top(sp@[p]) == first,
            !seen ==> forall|p: int| 0 <= p < i ==> top(#[trigger] sp@[p]) < bh,
        decreases sp@.len() - i,
    {
        let t = sp[i].y as u64 + sp[i].item.h() as u64;
        if t >= bh as u64 {
            if !seen {
                seen = true;
                first = t;
            } else if t != first {
                proof {
                    let p = choose|p: int| 0 <= p < i && top(#[trigger] sp@[p]) >= bh && top(sp@[p]) == first;
                    assert(top(sp@[i as int]) != top(sp@[p]));
                }
                return false;
            }
        }
        i = i + 1;
    }
    true
}

fn copy_blocks(b: &Vec<Placement<RectGroup>>) -> (r: Vec<Placement<RectGroup>>)
    ensures
        r@.len() == b@.len(),
        forall|i: int| 0 <= i < b@.len() ==> same_placed(#[trigger] r@[i], b@[i]),
{
    let mut r: Vec<Placement<RectGroup>> = Vec::new();
    let mut i: usize = 0;
    while i < b.len()
        invariant
            i <= b@.len(),
            r@.len() == i,
            forall|j: int| 0 <= j < i ==> same_placed(#[trigger] r@[j], b@[j]),
        decreases b@.len() - i,
    {
        let p = &b[i];
        r.push(Placement { x: p.x, y: p.y, item: p.item.duplicate() });
        i = i + 1;
    }
    r
}

fn copy_spaces(s: &Vec<Placement<Rect>>) -> (r: Vec<Placement<Rect>>)
    ensures
        r@ == s@,
{
    let mut r: Vec<Placement<Rect>> = Vec::new();
    let mut i: usize = 0;
    while i < s.len()
        invariant
            i <= s@.len(),
            r@ == s@.subrange(0, i as int),
        decreases s@.len() - i,
    {
        r.push(s[i]);
        i = i + 1;
        proof {
            assert(r@ =~= s@.subrange(0, i as int));
        }
    }
    proof {
        assert(s@.subrange(0, s@.len() as int) =~= s@);
    }
    r
}

/// The free spaces once `b` is placed.
fn gen_space(spaces: &Vec<Placement<Rect>>, b: &Placement<RectGroup>) -> (r: Vec<Placement<Rect>>)
    ensures
        r@ == gen_spaces(spaces@, *b),
{
    let mut l: Vec<Placement<Rect>> = Vec::new();
    let mut i: usize = 0;
    while i < spaces.len()
        invariant
            i <= spaces@.len(),
            l@ == split_part(spaces@.subrange(0, i as int), *b),
        decreases spaces@.len() - i,
    {
        let s = spaces[i];
        proof {
            let post = spaces@.subrange(0, i + 1);
            assert(post.drop_last() =~= spaces@.subrange(0, i as int));
            assert(post.last() == s);
        }
        if s.overlaps(b) {
            let mut t = s.substract(b);
            l.append(&mut t);
        } else {
            proof {
                assert(l@ + Seq::<Placement<Rect>>::empty() =~= l@);
            }
        }
        i = i + 1;
    }
    let mut k: Vec<Placement<Rect>> = Vec::new();
    let mut j: usize = 0;
    while j < spaces.len()
        invariant
            j <= spaces@.len(),
            k@ == kept_part(spaces@.subrange(0, j as int), *b),
        decreases spaces@.len() - j,
    {
        let s = spaces[j];
        proof {
            let pre = spaces@.subrange(0, j as int);
            assert(spaces@.subrange(0, j + 1) =~= pre.push(s));
            pre.lemma_filter_push(s, |x: Placement<Rect>| !overlap(x, *b));
        }
        if !s.overlaps(b) {
            k.push(s);
        }
        j = j + 1;
    }
    proof {
        assert(spaces@.subrange(0, spaces@.len() as int) =~= spaces@);
    }
    l.append(&mut k);
    l
}

impl BspaNode {
    /// Whether some candidate block fits in `space`.
    fn admits_exec(&self, space: &Placement<Rect>) -> (r: bool)
        ensures
            r == admits(self.spec_blk(), *space),
    {
        let mut i: usize = 0;
        while i < self.avai_blk.len()
            invariant
                i <= self.avai_blk@.len(),
                forall|j: int| 0 <= j < i ==> !fits(#[trigger] self.avai_blk@[j], *space),
            decreases self.avai_blk@.len() - i,
        {
            let g = &self.avai_blk[i];
            if g.w() <= space.item.w() && g.h() <= space.item.h() && g.area() <= space.item.area() {
                proof {
                    assert(fits(self.spec_blk()[i as int], *space));
                }
                return true;
            }
            i = i + 1;
        }
        false
    }

    /// The `pool` candidate blocks that fit in `space` with the lowest score
    /// (room left in the space plus the rounded average height of what
    /// would remain), lowest first.
    fn sel_block(&self, space: &Placement<Rect>, pool: usize) -> (r: Vec<RectGroup>)
        ensures
            r@.len() <= pool,
            pool > 0 && admits(self.spec_blk(), *space) ==> r@.len() > 0,
            forall|m: int|
                0 <= m < r@.len() ==> fits(#[trigger] r@[m], *space) && (self.wf() ==> r@[m].wf()
                    && respects(r@[m], self.spec_box())),
            copies_of(r@, self.spec_blk(), pool_of(self.spec_box(), self.spec_blk(), *space, pool)),
            best_pool(self.spec_box(), self.spec_blk(), *space, pool, pool_of(self.spec_box(), self.spec_blk(), *space, pool)),
    {
        let mut cand: Vec<usize> = Vec::new();
        let mut keys: Vec<u64> = Vec::new();
        let mut i: usize = 0;
        while i < self.avai_blk.len()
            invariant
                i <= self.avai_blk@.len(),
                cand@.len() == keys@.len(),
                forall|c: int|
                    0 <= c < cand@.len() ==> #[trigger] cand@[c] < self.avai_blk@.len() && fits(
                        self.avai_blk@[cand@[c] as int],
                        *space,
                    ),
                cand@.len() == 0 ==> forall|j: int| 0 <= j < i ==> !fits(#[trigger] self.avai_blk@[j], *space),
                cand@.map_values(|c: usize| c as int) == cands_upto(self.avai_blk@, *space, i as int),
                keys@ == keys_upto(self.avai_box@, self.avai_blk@, *space, i as int),
                forall|q: int|
                    0 <= q < keys@.len() ==> #[trigger] keys@[q] == key_of(
                        self.avai_box@,
                        self.avai_blk@[cand@[q] as int],
                        *space,
                    ),
                forall|q1: int, q2: int| 0 <= q1 < q2 < cand@.len() ==> cand@[q1] < cand@[q2],
                forall|q: int| 0 <= q < cand@.len() ==> #[trigger] cand@[q] < i,
                forall|j: int| 0 <= j < i && fits(#[trigger] self.avai_blk@[j], *space) ==> cand@.contains(j as usize),
            decreases self.avai_blk@.len() - i,
        {
            let g = &self.avai_blk[i];
            let ghost cb = cand@;
            if g.w() <= space.item.w() && g.h() <= space.item.h() && g.area() <= space.item.area() {
                let k = g.score(space, avg_high(&self.avai_box, g.list()));
                keys.push(k);
                cand.push(i);
                proof {
                    assert(cand@.map_values(|c: usize| c as int) =~= cb.map_values(|c: usize| c as int).push(
                        i as int,
                    ));
                    assert(cand@[cand@.len() - 1] == i);
                    assert forall|j: int| 0 <= j < i + 1 && fits(#[trigger] self.avai_blk@[j], *space) implies cand@.contains(
                        j as usize,
                    ) by {
                        if j < i {
                            let q = choose|q: int| 0 <= q < cb.len() && cb[q] == j as usize;
                            assert(cand@[q] == j as usize);
                        }
                    }
                }
            }
            i = i + 1;
        }
        let picks = pick_smallest(&keys, pool);
        let mut r: Vec<RectGroup> = Vec::new();
        let mut m: usize = 0;
        while m < picks.len()
            invariant
                m <= picks@.len(),
                r@.len() == m,
                picks@.len() <= pool,
                forall|q: int| 0 <= q < picks@.len() ==> #[trigger] picks@[q] < keys@.len(),
                cand@.len() == keys@.len(),
                forall|c: int|
                    0 <= c < cand@.len() ==> #[trigger] cand@[c] < self.avai_blk@.len() && fits(
                        self.avai_blk@[cand@[c] as int],
                        *space,
                    ),
                forall|q: int|
                    0 <= q < m ==> fits(#[trigger] r@[q], *space) && (self.wf() ==> r@[q].wf()
                        && respects(r@[q], self.spec_box())),
                forall|q: int|
                    0 <= q < m ==> same_group(#[trigger] r@[q], self.avai_blk@[cand@[picks@[q] as int] as int]),
            decreases picks@.len() - m,
        {
            let c = cand[picks[m]];
            let d = self.avai_blk[c].duplicate();
            proof {
                if self.wf() {
                    assert(self.spec_blk()[c as int].wf());
                    assert(respects(self.spec_blk()[c as int], self.spec_box()));
                    assert(respects(d, self.spec_box())) by {
                        assert forall|q: int| 0 <= q < self.spec_box().len() implies count_of(
                            d.spec_list(),
                            #[trigger] self.spec_box()[q].0,
                        ) <= self.spec_box()[q].1 by {
                            assert(count_of(self.spec_blk()[c as int].spec_list(), self.spec_box()[q].0)
                                <= self.spec_box()[q].1);
                        }
                    }
                }
            }
            r.push(d);
            m = m + 1;
        }
        proof {
            let c = cands_upto(self.avai_blk@, *space, self.avai_blk@.len() as int);
            let idx = pool_of(self.spec_box(), self.spec_blk(), *space, pool);
            assert forall|q: int| 0 <= q < picks@.len() implies idx[q] == cand@[picks@[q] as int] as int by {
                assert(c[picks@[q] as int] == cand@.map_values(|c: usize| c as int)[picks@[q] as int]);
            }
            assert(copies_of(r@, self.spec_blk(), idx));
            let bx = self.spec_box();
            let blk = self.spec_blk();
            assert forall|m: int| 0 <= m < idx.len() implies 0 <= #[trigger] idx[m] < blk.len() && fits(blk[idx[m]], *space) by {}
            assert forall|m: int| 0 < m < idx.len() implies key_of(bx, blk[idx[m - 1]], *space) <= key_of(
                bx,
                blk[#[trigger] idx[m]],
                *space,
            ) by {
                assert(keys@[picks@[m - 1] as int] <= keys@[picks@[m] as int]);
            }
            assert forall|j: int|
                0 <= j < blk.len() && fits(#[trigger] blk[j], *space) && !idx.contains(j) && idx.len() > 0 implies key_of(
                bx,
                blk[idx.last()],
                *space,
            ) <= key_of(bx, blk[j], *space) by {
                let q = choose|q: int| 0 <= q < cand@.len() && cand@[q] == j as usize;
                if picks@.contains(q as usize) {
                    let m = choose|m: int| 0 <= m < picks@.len() && picks@[m] == q as usize;
                    assert(idx[m] == cand@[picks@[m] as int] as int);
                    assert(idx[m] == j);
                }
                assert(keys@[q] == key_of(bx, blk[j], *space));
                assert(keys@[picks@.last() as int] <= keys@[q]);
            }
            if idx.len() < pool {
                assert forall|j: int| 0 <= j < blk.len() && fits(#[trigger] blk[j], *space) implies idx.contains(j) by {
                    let q = choose|q: int| 0 <= q < cand@.len() && cand@[q] == j as usize;
                    assert(picks@.contains(q as usize));
                    let m = choose|m: int| 0 <= m < picks@.len() && picks@[m] == q as usize;
                    assert(idx[m] == cand@[picks@[m] as int] as int);
                    assert(idx[m] == j);
                }
            }
            if pool > 0 && admits(self.spec_blk(), *space) {
                let j = choose|j: int| 0 <= j < self.spec_blk().len() && fits(self.spec_blk()[j], *space);
                assert(cand@.len() > 0);
                if picks@.len() == 0 {
                    assert(picks@.contains(0usize));
                }
            }
        }
        r
    }

    /// The lowest, then leftmost, free space that some candidate fits in,
    /// with the best `pool` candidates for it; `BranchExhausted` when no
    /// space takes a candidate or `pool` is zero.
    pub fn prepare(&self, pool: usize) -> (r: Result<(Placement<Rect>, Vec<RectGroup>), BeamError>)
        ensures
            r matches Ok((sp, v)) ==> {
                &&& self.spec_spaces().contains(sp)
                &&& admits(self.spec_blk(), sp)
                &&& v@.len() <= pool
                &&& pool > 0 ==> v@.len() > 0
                &&& forall|m: int|
                    0 <= m < v@.len() ==> fits(#[trigger] v@[m], sp) && (self.wf() ==> v@[m].wf()
                        && respects(v@[m], self.spec_box()))
                &&& forall|i: int|
                    0 <= i < self.spec_spaces().len() && admits(
                        self.spec_blk(),
                        #[trigger] self.spec_spaces()[i],
                    ) ==> !before(self.spec_spaces()[i], sp)
            },
            r matches Err(e) ==> e == BeamError::BranchExhausted && (forall|i: int|
                0 <= i < self.spec_spaces().len() ==> !admits(
                    self.spec_blk(),
                    #[trigger] self.spec_spaces()[i],
                )),
            r is Ok <==> chosen_space(self.spec_spaces(), self.spec_blk()) < self.spec_spaces().len(),
            r matches Ok((sp, v)) ==> sp == self.spec_spaces()[chosen_space(
                self.spec_spaces(),
                self.spec_blk(),
            )] && copies_of(v@, self.spec_blk(), pool_of(self.spec_box(), self.spec_blk(), sp, pool))
                && best_pool(self.spec_box(), self.spec_blk(), sp, pool, pool_of(self.spec_box(), self.spec_blk(), sp, pool)),
    {
        let mut best: usize = self.spaces.len();
        let mut i: usize = 0;
        {
            while i < self.spaces.len()
                invariant
                    i <= self.spaces@.len(),
                    best == self.spaces@.len() || (best < i && admits(
                        self.spec_blk(),
                        self.spaces@[best as int],
                    )),
                    best == self.spaces@.len() ==> forall|j: int|
                        0 <= j < i ==> !admits(self.spec_blk(), #[trigger] self.spaces@[j]),
                    best < self.spaces@.len() ==> forall|j: int|
                        0 <= j < i && admits(self.spec_blk(), #[trigger] self.spaces@[j]) ==> !before(
                            self.spaces@[j],
                            self.spaces@[best as int],
                        ),
                    best == best_space_upto(self.spaces@, self.avai_blk@, i as int),
                decreases self.spaces@.len() - i,
            {
                let s = self.spaces[i];
                if self.admits_exec(&s) {
                    if best == self.spaces.len() {
                        best = i;
                    } else {
                        let b = self.spaces[best];
                        if s.precedes(&b) {
                            best = i;
                        }
                    }
                }
                i = i + 1;
            }
        }
        if best == self.spaces.len() {
            return Err(BeamError::BranchExhausted);
        }
        let sp = self.spaces[best];
        let v = self.sel_block(&sp, pool);
        proof {
            assert(self.spec_spaces()[best as int] == sp);
        }
        Ok((sp, v))
    }

    /// The root node for the rectangles `items` in a container `w` wide and
    /// as high as their total area allows. Candidate blocks are the grids of
    /// each rectangle type that the counts allow, then up to `n` pairings of
    /// two grids side by side or stacked that fit the container and the
    /// counts; a candidate is kept only if its filled share of its area is
    /// at least `f_num / f_den`.
    pub fn new(items: &[Rect], w: u32, n: usize, f_num: u64, f_den: u64) -> (r: BspaNode)
        requires
            w > 0,
        ensures
            r.wf(),
            r.spec_blocks().len() == 0,
            r.spec_spaces().len() == 1,
            r.spec_spaces()[0].x == 0 && r.spec_spaces()[0].y == 0,
            r.spec_spaces()[0].item.spec_w() == w,
            r.spec_spaces()[0].item.spec_h() == (area_total(r.spec_box()) / w as u64) as u32,
            forall|i: int, j: int|
                0 <= i < j < r.spec_box().len() ==> (#[trigger] r.spec_box()[i]).0 != (
                #[trigger] r.spec_box()[j]).0,
            forall|i: int|
                0 <= i < r.spec_box().len() ==> (#[trigger] r.spec_box()[i]).1 == rect_count(
                    items@,
                    r.spec_box()[i].0,
                ),
            forall|i: int|
                0 <= i < items@.len() ==> exists|j: int|
                    0 <= j < r.spec_box().len() && (#[trigger] r.spec_box()[j]).0 == #[trigger] items@[i],
            keys_distinct(r.spec_box()),
            f_num <= f_den && (forall|i: int| 0 <= i < r.spec_box().len() ==> gridable(#[trigger] r.spec_box()[i]))
                ==> pure_cover(r.spec_blk(), r.spec_box()),
            forall|i: int| 0 <= i < r.spec_blk().len() ==> fill_share_ok(#[trigger] r.spec_blk()[i], f_num, f_den),
            exists|k: int| k <= n && #[trigger] combined_first(r.spec_blk(), k, w, r.spec_spaces()[0].item.spec_h()),
            lists(r.spec_blk()) == cand_lists(r.spec_box(), w, r.spec_spaces()[0].item.spec_h(), n, f_num, f_den),
    {
        let avai_box = count_items(items);
        let mut s: u64 = 0;
        let mut i: usize = 0;
        while i < avai_box.len()
            invariant
                i <= avai_box@.len(),
                s == area_total(avai_box@.subrange(0, i as int)),
            decreases avai_box@.len() - i,
        {
            let (k, v) = avai_box[i];
            proof {
                let post = avai_box@.subrange(0, i + 1);
                assert(post.drop_last() =~= avai_box@.subrange(0, i as int));
                assert(post.last() == (k, v));
                assert(k.spec_area() as int * v as int <= u64::MAX as int * usize::MAX as int) by (nonlinear_arith)
                    requires
                        k.spec_area() <= u64::MAX,
                        v <= usize::MAX,
                ;
                assert(u64::MAX as int * usize::MAX as int <= u128::MAX) by (nonlinear_arith)
                    requires
                        usize::MAX <= u64::MAX,
                ;
            }
            let av: u128 = k.area() as u128 * v as u128;
            let av64: u64 = if av > u64::MAX as u128 {
                u64::MAX
            } else {
                av as u64
            };
            s = s.saturating_add(av64);
            i = i + 1;
        }
        proof {
            assert(avai_box@.subrange(0, avai_box@.len() as int) =~= avai_box@);
        }
        let h = #[verifier::truncate] ((s / w as u64) as u32);
        let singles = grids(&avai_box, f_num, f_den);
        let mut avai_blk: Vec<RectGroup> = Vec::new();
        let mut a: usize = 0;
        while a < singles.len()
            invariant
                a <= singles@.len(),
                forall|m: int|
                    0 <= m < avai_blk@.len() ==> (#[trigger] avai_blk@[m]).wf() && respects(
                        avai_blk@[m],
                        avai_box@,
                    ),
                avai_blk@.len() <= n,
                forall|m: int|
                    0 <= m < avai_blk@.len() ==> fill_share_ok(#[trigger] avai_blk@[m], f_num, f_den)
                        && avai_blk@[m].spec_w() <= w && avai_blk@[m].spec_h() <= h,
                forall|m: int| 0 <= m < singles@.len() ==> (#[trigger] singles@[m]).wf(),
                lists(avai_blk@) == pairs_upto(lists(singles@), (a * singles@.len()) as nat, n, w, h, avai_box@, f_num, f_den),
            decreases singles@.len() - a,
        {
            let mut b: usize = 0;
            while b < singles.len()
                invariant
                    a < singles@.len(),
                    b <= singles@.len(),
                    forall|m: int|
                        0 <= m < avai_blk@.len() ==> (#[trigger] avai_blk@[m]).wf() && respects(
                            avai_blk@[m],
                            avai_box@,
                        ),
                    avai_blk@.len() <= n,
                    forall|m: int|
                        0 <= m < avai_blk@.len() ==> fill_share_ok(#[trigger] avai_blk@[m], f_num, f_den)
                            && avai_blk@[m].spec_w() <= w && avai_blk@[m].spec_h() <= h,
                    forall|m: int| 0 <= m < singles@.len() ==> (#[trigger] singles@[m]).wf(),
                    lists(avai_blk@) == pairs_upto(lists(singles@), (a * singles@.len() + b) as nat, n, w, h, avai_box@, f_num, f_den),
                decreases singles@.len() - b,
            {
                let ghost sl = lists(singles@);
                let ghost p = (a * singles@.len() + b) as nat;
                let ghost pre = lists(avai_blk@);
                proof {
                    lemma_fundamental_div_mod_converse(p as int, sl.len() as int, a as int, b as int);
                    assert(singles@[a as int].wf());
                    assert(sl[a as int] == singles@[a as int].spec_list());
                    assert(sl[b as int] == singles@[b as int].spec_list());
                }
                let (c1, c2) = singles[a].combine(&singles[b]);
                proof {
                    assert(c1.spec_list() == side_list(sl[a as int], sl[b as int]));
                    assert(c2.spec_list() == stack_list(sl[a as int], sl[b as int]));
                }
                let ghost c1l = c1.spec_list();
                let ghost c2l = c2.spec_list();
                if avai_blk.len() < n && c1.w() <= w && c1.h() <= h && respects_exec(&c1, &avai_box)
                    && fill_ok(&c1, f_num, f_den) {
                    avai_blk.push(c1);
                    proof {
                        assert(keep_pair(c1l, w, h, avai_box@, f_num, f_den));
                        assert(lists(avai_blk@) =~= pre.push(c1l));
                    }
                } else {
                    proof {
                        if pre.len() < n && keep_pair(c1l, w, h, avai_box@, f_num, f_den) {
                            assert(respects(c1, avai_box@));
                        }
                    }
                }
                let ghost mid = lists(avai_blk@);
                proof {
                    assert(mid == add_pair(pre, c1l, n, w, h, avai_box@, f_num, f_den));
                }
                if avai_blk.len() < n && c2.w() <= w && c2.h() <= h && respects_exec(&c2, &avai_box)
                    && fill_ok(&c2, f_num, f_den) {
                    avai_blk.push(c2);
                    proof {
                        assert(keep_pair(c2l, w, h, avai_box@, f_num, f_den));
                        assert(lists(avai_blk@) =~= mid.push(c2l));
                    }
                } else {
                    proof {
                        if mid.len() < n && keep_pair(c2l, w, h, avai_box@, f_num, f_den) {
                            assert(respects(c2, avai_box@));
                        }
                    }
                }
                proof {
                    assert(lists(avai_blk@) == add_pair(mid, c2l, n, w, h, avai_box@, f_num, f_den));
                    assert(lists(avai_blk@) == pairs_upto(sl, p + 1, n, w, h, avai_box@, f_num, f_den));
                }
                b = b + 1;
            }
            proof {
                assert(a * singles@.len() + singles@.len() == (a + 1) * singles@.len()) by (nonlinear_arith);
            }
            a = a + 1;
        }
        let ghost k = avai_blk@.len() as int;
        let ghost sl = lists(singles@);
        let ghost prs = lists(avai_blk@);
        proof {
            assert(prs == pairs_upto(sl, sl.len() * sl.len(), n, w, h, avai_box@, f_num, f_den));
            assert(prs =~= prs + sl.subrange(0, 0).filter(|l: Seq<Placement<Rect>>| respects_list(l, avai_box@)));
        }
        let mut q: usize = 0;
        while q < singles.len()
            invariant
                q <= singles@.len(),
                k <= n,
                combined_first(avai_blk@, k, w, h),
                sl == lists(singles@),
                lists(avai_blk@) == prs + sl.subrange(0, q as int).filter(
                    |l: Seq<Placement<Rect>>| respects_list(l, avai_box@),
                ),
                forall|m: int| 0 <= m < avai_blk@.len() ==> fill_share_ok(#[trigger] avai_blk@[m], f_num, f_den),
                forall|m: int| 0 <= m < singles@.len() ==> fill_share_ok(#[trigger] singles@[m], f_num, f_den) && uniform(singles@[m]),
                forall|m: int|
                    0 <= m < avai_blk@.len() ==> (#[trigger] avai_blk@[m]).wf() && respects(
                        avai_blk@[m],
                        avai_box@,
                    ),
                forall|m: int| 0 <= m < singles@.len() ==> (#[trigger] singles@[m]).wf(),
                forall|m: int|
                    0 <= m < q && respects(#[trigger] singles@[m], avai_box@) ==> exists|j: int|
                        0 <= j < avai_blk@.len() && same_group(#[trigger] avai_blk@[j], singles@[m]),
            decreases singles@.len() - q,
        {
            proof {
                let pre_sub = sl.subrange(0, q as int);
                assert(sl.subrange(0, q + 1) =~= pre_sub.push(sl[q as int]));
                pre_sub.lemma_filter_push(sl[q as int], |l: Seq<Placement<Rect>>| respects_list(l, avai_box@));
            }
            let ghost before_lists = lists(avai_blk@);
            let g = singles[q].duplicate();
            proof {
                assert(singles@[q as int].wf());
            }
            if respects_exec(&g, &avai_box) {
                let ghost before = avai_blk@;
                avai_blk.push(g);
                proof {
                    assert(respects_list(sl[q as int], avai_box@));
                    assert(lists(avai_blk@) =~= before_lists.push(sl[q as int]));
                    assert(fill_share_ok(singles@[q as int], f_num, f_den) && uniform(singles@[q as int]));
                    assert(uniform(g)) by {
                        assert forall|i: int| 0 <= i < g.spec_list().len() implies (#[trigger] g.spec_list()[i]).item
                            == g.spec_list()[0].item by {
                            assert(singles@[q as int].spec_list()[i].item == singles@[q as int].spec_list()[0].item);
                        }
                    }
                    assert forall|m: int| 0 <= m < avai_blk@.len() implies fill_share_ok(#[trigger] avai_blk@[m], f_num, f_den) by {
                        if m < before.len() {
                            assert(avai_blk@[m] == before[m]);
                        }
                    }
                    assert(combined_first(avai_blk@, k, w, h)) by {
                        assert forall|i: int| 0 <= i < k implies (#[trigger] avai_blk@[i]).spec_w() <= w && avai_blk@[i].spec_h() <= h by {
                            assert(avai_blk@[i] == before[i]);
                        }
                        assert forall|i: int| k <= i < avai_blk@.len() implies uniform(#[trigger] avai_blk@[i]) by {
                            if i < before.len() {
                                assert(avai_blk@[i] == before[i]);
                            }
                        }
                    }
                    assert forall|m: int|
                        0 <= m < q + 1 && respects(#[trigger] singles@[m], avai_box@) implies exists|j: int|
                            0 <= j < avai_blk@.len() && same_group(#[trigger] avai_blk@[j], singles@[m]) by {
                        if m < q {
                            let j = choose|j: int| 0 <= j < before.len() && same_group(#[trigger] before[j], singles@[m]);
                            assert(avai_blk@[j] == before[j]);
                        } else {
                            assert(same_group(avai_blk@[before.len() as int], singles@[m]));
                        }
                    }
                }
            } else {
                proof {
                    assert(!respects_list(sl[q as int], avai_box@));
                    assert(!respects(singles@[q as int], avai_box@)) by {
                        assert forall|u: int| 0 <= u < avai_box@.len() implies count_of(
                            singles@[q as int].spec_list(),
                            #[trigger] avai_box@[u].0,
                        ) == count_of(g.spec_list(), avai_box@[u].0) by {}
                    }
                }
            }
            q = q + 1;
        }
        proof {
            assert(sl.subrange(0, sl.len() as int) =~= sl);
        }
        let mut spaces: Vec<Placement<Rect>> = Vec::new();
        spaces.push(Placement { x: 0, y: 0, item: Rect::new(w, h) });
        let r = BspaNode { spaces, blocks: Vec::new(), avai_box, avai_blk };
        proof {
            assert(r.spec_box() == avai_box@);
            assert(r.spec_blk() == avai_blk@);
            assert(r.spec_spaces()[0].item.spec_h() == h);
            assert(lists(r.spec_blk()) == cand_lists(r.spec_box(), w, h, n, f_num, f_den));
            assert(combined_first(r.spec_blk(), k, w, r.spec_spaces()[0].item.spec_h()));
            let bx = avai_box@;
            if f_num <= f_den && (forall|i: int| 0 <= i < bx.len() ==> gridable(#[trigger] bx[i])) {
                assert forall|t: int, c: nat| 0 <= t < bx.len() && 1 <= c <= bx[t].1 implies #[trigger] pure_at(avai_blk@, bx, t, c) by {
                    assert(gridable(bx[t]));
                    assert(pure_at(singles@, bx, t, c));
                    let i = choose|i: int|
                        0 <= i < singles@.len() && count_of((#[trigger] singles@[i]).spec_list(), bx[t].0) == c && forall|u: int|
                            0 <= u < bx.len() && u != t ==> count_of(singles@[i].spec_list(), #[trigger] bx[u].0) == 0;
                    assert(respects(singles@[i], bx)) by {
                        assert forall|u: int| 0 <= u < bx.len() implies count_of(singles@[i].spec_list(), #[trigger] bx[u].0) <= bx[u].1 by {
                            if u != t {
                                assert(count_of(singles@[i].spec_list(), bx[u].0) == 0);
                            }
                        }
                    }
                    let j = choose|j: int| 0 <= j < avai_blk@.len() && same_group(#[trigger] avai_blk@[j], singles@[i]);
                    assert forall|u: int| 0 <= u < bx.len() && u != t implies count_of(avai_blk@[j].spec_list(), #[trigger] bx[u].0) == 0 by {
                        assert(count_of(singles@[i].spec_list(), bx[u].0) == 0);
                    }
                    assert(count_of(avai_blk@[j].spec_list(), bx[t].0) == c);
                }
            }
            assert forall|i: int| 0 <= i < items@.len() implies exists|j: int|
                0 <= j < r.spec_box().len() && (#[trigger] r.spec_box()[j]).0 == #[trigger] items@[i] by {
                let j = choose|j: int| 0 <= j < avai_box@.len() && (#[trigger] avai_box@[j]).0 == items@[i];
                assert(r.spec_box()[j].0 == items@[i]);
            }
        }
        r
    }

    /// `base` with its free spaces and placed blocks replaced; the counts and
    /// candidates stay.
    pub fn with_layout(base: BspaNode, spaces: Vec<Placement<Rect>>, blocks: Vec<Placement<RectGroup>>) -> (r: BspaNode)
        ensures
            r.spec_spaces() == spaces@,
            r.spec_blocks() == blocks@,
            r.spec_box() == base.spec_box(),
            r.spec_blk() == base.spec_blk(),
    {
        BspaNode { spaces, blocks, avai_box: base.avai_box, avai_blk: base.avai_blk }
    }

    /// The free spaces.
    pub fn spaces(&self) -> (r: &[Placement<Rect>])
        ensures
            r@ == self.spec_spaces(),
    {
        self.spaces.as_slice()
    }

    /// A copy of the node.
    pub fn duplicate(&self) -> (r: BspaNode)
        ensures
            r.spec_spaces() == self.spec_spaces(),
            r.spec_box() == self.spec_box(),
            r.spec_blocks().len() == self.spec_blocks().len(),
            forall|i: int|
                0 <= i < self.spec_blocks().len() ==> same_placed(
                    #[trigger] r.spec_blocks()[i],
                    self.spec_blocks()[i],
                ),
            r.spec_blk().len() == self.spec_blk().len(),
            forall|i: int|
                0 <= i < self.spec_blk().len() ==> same_group(
                    #[trigger] r.spec_blk()[i],
                    self.spec_blk()[i],
                ),
    {
        let spaces = copy_spaces(&self.spaces);
        let blocks = copy_blocks(&self.blocks);
        let mut avai_box: Vec<(Rect, usize)> = Vec::new();
        let mut i: usize = 0;
        while i < self.avai_box.len()
            invariant
                i <= self.avai_box@.len(),
                avai_box@ == self.avai_box@.subrange(0, i as int),
            decreases self.avai_box@.len() - i,
        {
            avai_box.push(self.avai_box[i]);
            i = i + 1;
            proof {
                assert(avai_box@ =~= self.avai_box@.subrange(0, i as int));
            }
        }
        proof {
            assert(self.avai_box@.subrange(0, self.avai_box@.len() as int) =~= self.avai_box@);
        }
        let mut avai_blk: Vec<RectGroup> = Vec::new();
        let mut j: usize = 0;
        while j < self.avai_blk.len()
            invariant
                j <= self.avai_blk@.len(),
                avai_blk@.len() == j,
                forall|m: int| 0 <= m < j ==> same_group(#[trigger] avai_blk@[m], self.avai_blk@[m]),
            decreases self.avai_blk@.len() - j,
        {
            avai_blk.push(self.avai_blk[j].duplicate());
            j = j + 1;
        }
        BspaNode { spaces, blocks, avai_box, avai_blk }
    }

    /// Right edge of the rightmost space, or the blocks' width when there is
    /// no space.
    fn xmax(&self) -> (r: u32)
        ensures
            r == xmax_of(self.spec_spaces(), self.spec_blocks()),
    {
        if self.spaces.len() == 0 {
            let (w, _, _) = bounds(self.blocks.as_slice());
            return w;
        }
        let mut m: u32 = 0;
        let mut i: usize = 0;
        while i < self.spaces.len()
            invariant
                i <= self.spaces@.len(),
                m == max_edge(self.spaces@.subrange(0, i as int)),
            decreases self.spaces@.len() - i,
        {
            let sp = self.spaces[i];
            proof {
                let post = self.spaces@.subrange(0, i + 1);
                assert(post.drop_last() =~= self.spaces@.subrange(0, i as int));
                assert(post.last() == sp);
            }
            let e = sp.x.saturating_add(sp.item.w());
            if e > m {
                m = e;
            }
            i = i + 1;
        }
        proof {
            assert(self.spaces@.subrange(0, self.spaces@.len() as int) =~= self.spaces@);
        }
        m
    }

    /// How much higher the container must grow for one more block: on a copy
    /// whose top spaces reach up without bound, the best block is placed
    /// once, and the growth of the blocks' height is measured; zero when no
    /// block fits.
    fn lookahead(&self) -> (r: u32)
        ensures
            grows_by(*self, r),
    {
        let (_, bh, _) = bounds(self.blocks.as_slice());
        let xmax = self.xmax();
        let ymax = bh;
        let mut lhs = self.duplicate();
        let ghost sp0 = self.spaces@;
        proof {
            assert(same_blocks(lhs.blocks@, self.blocks@));
            assert(same_groups(lhs.avai_blk@, self.avai_blk@));
        }
        let mut full = false;
        let mut i: usize = 0;
        while i < lhs.spaces.len()
            invariant
                i <= lhs.spaces@.len(),
                lhs.spaces@.len() == sp0.len(),
                forall|j: int| i <= j < sp0.len() ==> #[trigger] lhs.spaces@[j] == sp0[j],
                forall|j: int| 0 <= j < i ==> #[trigger] lhs.spaces@[j] == raise_one(sp0[j], ymax),
                full == exists|j: int| 0 <= j < i && #[trigger] full_top(sp0[j], ymax, xmax),
                lhs.avai_box@ == self.avai_box@,
                same_blocks(lhs.blocks@, self.blocks@),
                same_groups(lhs.avai_blk@, self.avai_blk@),
            decreases lhs.spaces@.len() - i,
        {
            let sp = lhs.spaces[i];
            if sp.y as u64 + sp.item.h() as u64 >= ymax as u64 {
                let raised = Placement { x: sp.x, y: sp.y, item: Rect::new(sp.item.w(), u32::MAX - sp.y) };
                lhs.spaces.set(i, raised);
                if sp.item.w() >= xmax {
                    full = true;
                }
            }
            proof {
                assert(lhs.spaces@[i as int] == raise_one(sp0[i as int], ymax));
                if full_top(sp0[i as int], ymax, xmax) {
                    assert(full);
                }
            }
            i = i + 1;
        }
        if !full {
            lhs.spaces.push(Placement { x: 0, y: ymax, item: Rect::new(xmax, u32::MAX - ymax) });
        }
        proof {
            assert(lhs.spec_spaces() =~= raised_spaces(sp0, ymax, xmax));
        }
        let r = match lhs.successors(1, 1) {
            Ok(v) => {
                if v.len() > 0 {
                    let (_, th, _) = bounds(v[0].blocks.as_slice());
                    proof {
                        let s = lhs.spec_expand(1, 1)->Ok_0;
                        lemma_blocks_measures(v@[0].spec_blocks(), s[0].spec_blocks());
                    }
                    th.saturating_sub(bh)
                } else {
                    0
                }
            },
            Err(_) => 0,
        };
        proof {
            assert(raised_copy(*self, lhs));
        }
        r
    }

    /// Raises the container by `d`: every space that reaches the blocks'
    /// height `ymax` is stretched to end at `ymax + d`, and when none of them
    /// spans the full width a full-width space of height `d` is added at
    /// `ymax`. The spaces that reach `ymax` then all end at the same height,
    /// unless one of them starts above `ymax + d` or that height exceeds the
    /// coordinate range.
    pub fn lift(&mut self, d: u32)
        ensures
            inflated_by(*old(self), *final(self), d),
            lift_fits(*old(self), d) ==> tops_aligned(
                final(self).spec_spaces(),
                group_h(old(self).spec_blocks()) as int,
            ),
    {
        let (_, bh, _) = bounds(self.blocks.as_slice());
        let xmax = self.xmax();
        let ymax = bh;
        let target: u64 = ymax as u64 + d as u64;
        let ghost old_sp = self.spaces@;
        let mut full = false;
        let mut i: usize = 0;
        while i < self.spaces.len()
            invariant
                i <= self.spaces@.len(),
                self.spaces@.len() == old_sp.len(),
                self.blocks@ == old(self).blocks@,
                self.avai_box@ == old(self).avai_box@,
                self.avai_blk@ == old(self).avai_blk@,
                old_sp == old(self).spaces@,
                ymax == group_h(old(self).blocks@),
                target == ymax + d,
                forall|j: int| i <= j < old_sp.len() ==> #[trigger] self.spaces@[j] == old_sp[j],
                forall|j: int| 0 <= j < i ==> #[trigger] self.spaces@[j] == lift_one(old_sp[j], ymax, d),
                full == exists|j: int| 0 <= j < i && #[trigger] full_top(old_sp[j], ymax, xmax),
            decreases self.spaces@.len() - i,
        {
            let sp = self.spaces[i];
            if sp.y as u64 + sp.item.h() as u64 >= ymax as u64 {
                let nh: u32 = if target < sp.y as u64 {
                    0
                } else if target - sp.y as u64 > u32::MAX as u64 {
                    u32::MAX
                } else {
                    (target - sp.y as u64) as u32
                };
                self.spaces.set(i, Placement { x: sp.x, y: sp.y, item: Rect::new(sp.item.w(), nh) });
                if sp.item.w() >= xmax {
                    full = true;
                }
            }
            proof {
                assert(self.spaces@[i as int] == lift_one(old_sp[i as int], ymax, d));
                if full_top(old_sp[i as int], ymax, xmax) {
                    assert(full);
                }
            }
            i = i + 1;
        }
        if !full {
            self.spaces.push(Placement { x: 0, y: ymax, item: Rect::new(xmax, d) });
        }
        proof {
            assert(self.spec_spaces() =~= lifted_spaces(old_sp, ymax, xmax, d));
            if lift_fits(*old(self), d) {
                lemma_lift_aligns(old_sp, ymax, xmax, d);
            }
        }
    }

    /// Whether the placement invariants hold: no two blocks overlap, no
    /// space overlaps a block, every candidate is within the counts, and for
    /// each type every count from one up to what is left is the count of
    /// that type in some candidate.
    pub open spec fn expand_ok(&self) -> bool {
        &&& blocks_disjoint(self.spec_blocks())
        &&& spaces_clear(self.spec_spaces(), self.spec_blocks())
        &&& forall|i: int| 0 <= i < self.spec_blk().len() ==> respects(#[trigger] self.spec_blk()[i], self.spec_box())
        &&& forall|t: int, c: nat|
            0 <= t < self.spec_box().len() && 1 <= c <= self.spec_box()[t].1 ==> #[trigger] covers(
                self.spec_blk(),
                self.spec_box()[t].0,
                c,
            )
    }

    /// The node with nothing in it.
    pub open spec fn spec_is_empty(&self) -> bool {
        &&& self.spec_spaces().len() == 0
        &&& self.spec_blocks().len() == 0
        &&& self.spec_box().len() == 0
        &&& self.spec_blk().len() == 0
    }

    /// The children of the node: the best `pool` candidates for the lowest,
    /// then leftmost, space that takes one, each placed there, at most
    /// `width` of them. Children of a well-formed node are well formed.
    pub fn successors(&self, width: usize, pool: usize) -> (r: Result<Vec<BspaNode>, BeamError>)
        ensures
            r is Err <==> (forall|i: int|
                0 <= i < self.spec_spaces().len() ==> !admits(
                    self.spec_blk(),
                    #[trigger] self.spec_spaces()[i],
                )),
            match r {
                Ok(v) => {
                    &&& self.spec_expand(width, pool) matches Ok(s)
                    &&& s.len() == v@.len()
                    &&& v@.len() <= width
                    &&& forall|i: int|
                        0 <= i < v@.len() ==> self.spec_step(#[trigger] &v@[i]) && v@[i].spec_same(&s[i])
                },
                Err(e) => e == BeamError::BranchExhausted && self.spec_expand(width, pool) == Err::<
                    Seq<BspaNode>,
                    BeamError,
                >(e),
            },
            r matches Ok(v) ==> (self.wf() ==> forall|i: int| 0 <= i < v@.len() ==> (#[trigger] v@[i]).wf())
                && (keys_distinct(self.spec_box()) && pure_cover(self.spec_blk(), self.spec_box())
                ==> forall|i: int|
                0 <= i < v@.len() ==> keys_distinct((#[trigger] v@[i]).spec_box()) && pure_cover(
                    v@[i].spec_blk(),
                    v@[i].spec_box(),
                )),
    {
        match self.prepare(pool) {
            Err(e) => Err(e),
            Ok((space, blocks)) => {
                let ghost idx = pool_of(self.spec_box(), self.spec_blk(), space, pool);
                let mut out: Vec<BspaNode> = Vec::new();
                let mut m: usize = 0;
                while m < width && m < blocks.len()
                    invariant
                        m <= width,
                        m <= blocks@.len(),
                        out@.len() == m,
                        self.spec_spaces().contains(space),
                        copies_of(blocks@, self.spec_blk(), idx),
                        forall|q: int|
                            0 <= q < blocks@.len() ==> fits(#[trigger] blocks@[q], space) && (self.wf()
                                ==> blocks@[q].wf() && respects(blocks@[q], self.spec_box())),
                        self.wf() ==> forall|i: int| 0 <= i < out@.len() ==> (#[trigger] out@[i]).wf(),
                        forall|i: int|
                            0 <= i < out@.len() ==> (#[trigger] out@[i]).spec_blocks().len()
                                == self.spec_blocks().len() + 1,
                        forall|i: int|
                            0 <= i < out@.len() ==> child_of(*self, space, self.spec_blk()[idx[i]], #[trigger] out@[i]),
                        keys_distinct(self.spec_box()) && pure_cover(self.spec_blk(), self.spec_box())
                            ==> forall|i: int|
                            0 <= i < out@.len() ==> keys_distinct((#[trigger] out@[i]).spec_box())
                                && pure_cover(out@[i].spec_blk(), out@[i].spec_box()),
                    decreases width - m,
                {
                    let g = blocks[m].duplicate();
                    proof {
                        assert(fits(blocks@[m as int], space));
                    }
                    let ghost gs = g;
                    let child = self.advance(space, g);
                    proof {
                        let h = self.spec_blk()[idx[m as int]];
                        assert(same_group(blocks@[m as int], h));
                        let p1 = Placement { x: space.x, y: space.y, item: gs };
                        let p2 = Placement { x: space.x, y: space.y, item: h };
                        lemma_split_part_same(self.spec_spaces(), p1, p2);
                        lemma_kept_part_same(self.spec_spaces(), p1, p2);
                        let bl = self.spec_blocks().push(p2);
                        assert forall|i: int| 0 <= i < child.spec_blocks().len() implies same_placed(
                            #[trigger] child.spec_blocks()[i],
                            bl[i],
                        ) by {
                            assert(same_placed(child.spec_blocks()[i], self.spec_blocks().push(p1)[i]));
                        }
                        assert(child_of(*self, space, h, child));
                    }
                    let ghost before = out@;
                    out.push(child);
                    proof {
                        assert forall|i: int| 0 <= i < out@.len() implies child_of(
                            *self,
                            space,
                            self.spec_blk()[idx[i]],
                            #[trigger] out@[i],
                        ) by {
                            if i < before.len() {
                                assert(out@[i] == before[i]);
                            }
                        }
                    }
                    m = m + 1;
                }
                proof {
                    let k = if width < idx.len() { width as int } else { idx.len() as int };
                    assert(out@.len() == k);
                    let c = chosen_space(self.spec_spaces(), self.spec_blk());
                    assert(space == self.spec_spaces()[c]);
                    let pr = |s: Seq<BspaNode>| s.len() == k && forall|i: int|
                        0 <= i < k ==> child_of(*self, space, self.spec_blk()[idx[i]], #[trigger] s[i]);
                    assert(pr(out@));
                    let sch = choose|s: Seq<BspaNode>| s.len() == k && forall|i: int|
                        0 <= i < k ==> child_of(*self, space, self.spec_blk()[idx[i]], #[trigger] s[i]);
                    assert(self.spec_expand(width, pool) == Ok::<Seq<BspaNode>, BeamError>(sch));
                    assert forall|i: int| 0 <= i < out@.len() implies self.spec_step(#[trigger] &out@[i])
                        && out@[i].spec_same(&sch[i]) by {
                        lemma_child_unique(*self, space, self.spec_blk()[idx[i]], out@[i], sch[i]);
                    }
                }
                Ok(out)
            },
        }
    }

    /// The child node that places `block` at the lower-left corner of `space`:
    /// the counts drop by the rectangles of the block, candidates that no
    /// longer fit the counts are dropped, and every space that the block
    /// overlaps is split around it. When the node is well formed, `space` is
    /// one of its spaces and the block is well formed and fits the space, the
    /// child is well formed: blocks stay disjoint, spaces stay clear of
    /// blocks, and candidates stay within the counts.
    pub fn advance(&self, space: Placement<Rect>, block: RectGroup) -> (r: BspaNode)
        ensures
            r.spec_blocks().len() == self.spec_blocks().len() + 1,
            forall|i: int|
                0 <= i < self.spec_blocks().len() ==> same_placed(
                    #[trigger] r.spec_blocks()[i],
                    self.spec_blocks()[i],
                ),
            r.spec_blocks().last() == (Placement { x: space.x, y: space.y, item: block }),
            r.spec_spaces() == gen_spaces(
                self.spec_spaces(),
                Placement { x: space.x, y: space.y, item: block },
            ),
            r.spec_box().len() == self.spec_box().len(),
            forall|i: int|
                0 <= i < self.spec_box().len() ==> (#[trigger] r.spec_box()[i]).0 == self.spec_box()[i].0
                    && r.spec_box()[i].1 == sat_sub(
                    self.spec_box()[i].1,
                    count_of(block.spec_list(), self.spec_box()[i].0),
                ),
            self.wf() && self.spec_spaces().contains(space) && block.wf() && block.spec_w()
                <= space.item.spec_w() && block.spec_h() <= space.item.spec_h() ==> r.wf(),
            keys_distinct(self.spec_box()) ==> keys_distinct(r.spec_box()),
            keys_distinct(self.spec_box()) && pure_cover(self.spec_blk(), self.spec_box())
                ==> pure_cover(r.spec_blk(), r.spec_box()),
            child_of(*self, space, block, r),
    {
        let mut avai_box: Vec<(Rect, usize)> = Vec::new();
        let mut i: usize = 0;
        while i < self.avai_box.len()
            invariant
                i <= self.avai_box@.len(),
                avai_box@.len() == i,
                forall|j: int|
                    0 <= j < i ==> (#[trigger] avai_box@[j]).0 == self.avai_box@[j].0
                        && avai_box@[j].1 == sat_sub(
                        self.avai_box@[j].1,
                        count_of(block.spec_list(), self.avai_box@[j].0),
                    ),
            decreases self.avai_box@.len() - i,
        {
            let (k, v) = self.avai_box[i];
            let c = count_in(block.list(), k);
            avai_box.push((k, v.saturating_sub(c)));
            i = i + 1;
        }
        let mut avai_blk: Vec<RectGroup> = Vec::new();
        let ghost mut src: Seq<int> = Seq::empty();
        let mut j: usize = 0;
        while j < self.avai_blk.len()
            invariant
                j <= self.avai_blk@.len(),
                src.len() == avai_blk@.len(),
                forall|m: int| 0 <= m < avai_blk@.len() ==> respects(#[trigger] avai_blk@[m], avai_box@),
                forall|m: int| 0 <= m < avai_blk@.len() ==> 0 <= #[trigger] src[m] < j,
                forall|m: int|
                    0 <= m < avai_blk@.len() ==> same_group(
                        #[trigger] avai_blk@[m],
                        self.avai_blk@[src[m]],
                    ),
                forall|m: int|
                    0 <= m < j && respects(#[trigger] self.avai_blk@[m], avai_box@) ==> exists|q: int|
                        0 <= q < avai_blk@.len() && same_group(#[trigger] avai_blk@[q], self.avai_blk@[m]),
                same_groups(avai_blk@, still_allowed(self.avai_blk@.subrange(0, j as int), avai_box@)),
            decreases self.avai_blk@.len() - j,
        {
            let g = &self.avai_blk[j];
            proof {
                let pre = self.avai_blk@.subrange(0, j as int);
                assert(self.avai_blk@.subrange(0, j + 1) =~= pre.push(*g));
                pre.lemma_filter_push(*g, |h: RectGroup| respects(h, avai_box@));
            }
            if respects_exec(g, &avai_box) {
                let d = g.duplicate();
                let ghost before = avai_blk@;
                let ghost before_src = src;
                avai_blk.push(d);
                proof {
                    src = src.push(j as int);
                    assert(src[src.len() - 1] == j);
                    assert(same_group(d, self.avai_blk@[j as int]));
                    assert(respects(d, avai_box@)) by {
                        assert forall|q: int| 0 <= q < avai_box@.len() implies count_of(
                            d.spec_list(),
                            #[trigger] avai_box@[q].0,
                        ) <= avai_box@[q].1 by {
                            assert(count_of(g.spec_list(), avai_box@[q].0) <= avai_box@[q].1);
                        }
                    }
                    assert forall|m: int| 0 <= m < avai_blk@.len() implies respects(
                        #[trigger] avai_blk@[m],
                        avai_box@,
                    ) && 0 <= src[m] < j + 1 && same_group(avai_blk@[m], self.avai_blk@[src[m]]) by {
                        assert(0 <= m < before.len() ==> 0 <= before_src[m] < j);
                        if m < before.len() {
                            assert(avai_blk@[m] == before[m]);
                            assert(src[m] == before_src[m]);
                        } else {
                            assert(m == before.len());
                            assert(avai_blk@[m] == d);
                        }
                    }
                    let al = still_allowed(self.avai_blk@.subrange(0, j + 1), avai_box@);
                    assert forall|m: int| 0 <= m < avai_blk@.len() implies same_group(#[trigger] avai_blk@[m], al[m]) by {
                        if m < before.len() {
                            assert(avai_blk@[m] == before[m]);
                        }
                    }
                    assert forall|m: int|
                        0 <= m < j + 1 && respects(#[trigger] self.avai_blk@[m], avai_box@) implies exists|q: int|
                            0 <= q < avai_blk@.len() && same_group(#[trigger] avai_blk@[q], self.avai_blk@[m]) by {
                        if m < j {
                            let q = choose|q: int| 0 <= q < before.len() && same_group(#[trigger] before[q], self.avai_blk@[m]);
                            assert(avai_blk@[q] == before[q]);
                        } else {
                            assert(same_group(avai_blk@[before.len() as int], self.avai_blk@[m]));
                        }
                    }
                }
            } else {
                proof {
                    assert(!respects(self.avai_blk@[j as int], avai_box@));
                }
            }
            j = j + 1;
        }
        let mut blocks = copy_blocks(&self.blocks);
        let placed = Placement { x: space.x, y: space.y, item: block };
        blocks.push(placed);
        let spaces = gen_space(&self.spaces, blocks.last().unwrap());
        let r = BspaNode { spaces, blocks, avai_box, avai_blk };
        proof {
            assert(self.avai_blk@.subrange(0, self.avai_blk@.len() as int) =~= self.avai_blk@);
            assert(r.spec_box() =~= box_after(self.spec_box(), r.spec_blocks().last().item.spec_list()));
            let bl = self.spec_blocks().push(r.spec_blocks().last());
            assert forall|i: int| 0 <= i < r.spec_blocks().len() implies same_placed(
                #[trigger] r.spec_blocks()[i],
                bl[i],
            ) by {}
            assert(child_of(*self, space, r.spec_blocks().last().item, r));
            let nb = r.spec_blocks().last();
            if self.wf() && self.spec_spaces().contains(space) && nb.item.wf() && nb.item.spec_w()
                <= space.item.spec_w() && nb.item.spec_h() <= space.item.spec_h() {
                let si = choose|si: int|
                    0 <= si < self.spec_spaces().len() && self.spec_spaces()[si] == space;
                let ob = self.spec_blocks();
                let bs = r.spec_blocks();
                let n = ob.len();
                assert(contained(nb, space));
                assert forall|q: int| 0 <= q < n implies !overlap(nb, #[trigger] ob[q]) && !overlap(
                    ob[q],
                    nb,
                ) by {
                    assert(!overlap(self.spec_spaces()[si], ob[q]));
                    lemma_contained_clear(nb, space, ob[q]);
                }
                assert forall|a: int, b: int|
                    0 <= a < bs.len() && 0 <= b < bs.len() && a != b implies !overlap(
                    #[trigger] bs[a],
                    #[trigger] bs[b],
                ) by {
                    if a < n && b < n {
                        assert(same_placed(bs[a], ob[a]));
                        assert(same_placed(bs[b], ob[b]));
                        assert(!overlap(ob[a], ob[b]));
                    } else if a < n {
                        assert(same_placed(bs[a], ob[a]));
                        assert(!overlap(ob[a], nb));
                    } else if b < n {
                        assert(same_placed(bs[b], ob[b]));
                        assert(!overlap(nb, ob[b]));
                    }
                }
                let sp = self.spec_spaces();
                let ns = r.spec_spaces();
                let sl = split_part(sp, nb);
                let kp = kept_part(sp, nb);
                assert(ns == sl + kp);
                lemma_split_part(sp, nb, nb);
                lemma_kept_part(sp, nb, nb);
                assert forall|a: int, b: int| 0 <= a < ns.len() && 0 <= b < bs.len() implies !overlap(
                    #[trigger] ns[a],
                    #[trigger] bs[b],
                ) by {
                    if b < n {
                        let q = ob[b];
                        assert(clear_of(sp, q)) by {
                            assert forall|c: int| 0 <= c < sp.len() implies !overlap(
                                #[trigger] sp[c],
                                q,
                            ) by {
                                assert(!overlap(sp[c], ob[b]));
                            }
                        }
                        lemma_split_part(sp, nb, q);
                        lemma_kept_part(sp, nb, q);
                        assert(same_placed(bs[b], q));
                        if a < sl.len() {
                            assert(ns[a] == sl[a]);
                            assert(!overlap(sl[a], q));
                        } else {
                            assert(ns[a] == kp[a - sl.len()]);
                            assert(!overlap(kp[a - sl.len()], q));
                        }
                    } else {
                        if a < sl.len() {
                            assert(ns[a] == sl[a]);
                            assert(!overlap(sl[a], nb));
                        } else {
                            assert(ns[a] == kp[a - sl.len()]);
                            assert(!overlap(kp[a - sl.len()], nb));
                        }
                    }
                }
                assert forall|a: int| 0 <= a < bs.len() implies (#[trigger] bs[a]).item.wf() by {
                    if a < n {
                        assert(same_placed(bs[a], ob[a]));
                    }
                }
                assert forall|m: int| 0 <= m < r.spec_blk().len() implies (#[trigger] r.spec_blk()[m]).wf()
                    && respects(r.spec_blk()[m], r.spec_box()) by {
                    assert(r.spec_blk()[m] == avai_blk@[m]);
                    assert(0 <= src[m] < self.spec_blk().len());
                    assert(self.spec_blk()[src[m]].wf());
                }
            }
            let ob = self.spec_box();
            let nbx = r.spec_box();
            if keys_distinct(ob) {
                assert(keys_distinct(nbx)) by {
                    assert forall|a: int, b: int| 0 <= a < b < nbx.len() implies (#[trigger] nbx[a]).0 != (#[trigger] nbx[b]).0 by {
                        assert(nbx[a].0 == ob[a].0);
                        assert(nbx[b].0 == ob[b].0);
                    }
                }
                if pure_cover(self.spec_blk(), ob) {
                    assert forall|t: int, c: nat| 0 <= t < nbx.len() && 1 <= c <= nbx[t].1 implies #[trigger] pure_at(r.spec_blk(), nbx, t, c) by {
                        assert(nbx[t].1 <= ob[t].1);
                        assert(pure_at(self.spec_blk(), ob, t, c));
                        let i = choose|i: int|
                            0 <= i < self.spec_blk().len() && count_of((#[trigger] self.spec_blk()[i]).spec_list(), ob[t].0) == c && forall|u: int|
                                0 <= u < ob.len() && u != t ==> count_of(self.spec_blk()[i].spec_list(), #[trigger] ob[u].0) == 0;
                        let g = self.spec_blk()[i];
                        assert(respects(g, nbx)) by {
                            assert forall|u: int| 0 <= u < nbx.len() implies count_of(g.spec_list(), #[trigger] nbx[u].0) <= nbx[u].1 by {
                                assert(nbx[u].0 == ob[u].0);
                                if u != t {
                                    assert(count_of(g.spec_list(), ob[u].0) == 0);
                                }
                            }
                        }
                        assert(self.avai_blk@[i] == g);
                        let q = choose|q: int| 0 <= q < avai_blk@.len() && same_group(#[trigger] avai_blk@[q], self.avai_blk@[i]);
                        assert(r.spec_blk()[q] == avai_blk@[q]);
                        assert forall|u: int| 0 <= u < nbx.len() && u != t implies count_of(r.spec_blk()[q].spec_list(), #[trigger] nbx[u].0) == 0 by {
                            assert(nbx[u].0 == ob[u].0);
                            assert(count_of(g.spec_list(), ob[u].0) == 0);
                        }
                        assert(count_of(r.spec_blk()[q].spec_list(), nbx[t].0) == c);
                    }
                }
            }
        }
        r
    }
}

impl Node for BspaNode {
    open spec fn spec_fulfilled(&self) -> bool {
        !self.spec_is_empty() && all_packed(self.spec_box())
    }

    open spec fn spec_evaluable(&self) -> bool {
        score_fits(self.spec_box(), self.spec_blocks())
    }

    open spec fn spec_evaluate(&self) -> u64 {
        node_score(self.spec_box(), self.spec_blocks())
    }

    open spec fn spec_blank(&self) -> bool {
        self.spec_is_empty()
    }

    /// One more block is placed.
    open spec fn spec_step(&self, next: &Self) -> bool {
        next.spec_blocks().len() == self.spec_blocks().len() + 1
    }

    /// The same spaces and counts, and the same blocks and candidates
    /// position by position.
    open spec fn spec_same(&self, other: &Self) -> bool {
        &&& self.spec_spaces() == other.spec_spaces()
        &&& self.spec_box() == other.spec_box()
        &&& same_blocks(self.spec_blocks(), other.spec_blocks())
        &&& same_groups(self.spec_blk(), other.spec_blk())
    }

    /// No successor when no space takes a candidate; otherwise, for the lowest-then-leftmost space that takes one, the
    /// children placing the best `pool` candidates there, best first, at most
    /// `width` of them.
    open spec fn spec_expand(&self, width: usize, pool: usize) -> Result<Seq<Self>, BeamError> {
        let c = chosen_space(self.spec_spaces(), self.spec_blk());
        if c >= self.spec_spaces().len() {
            Err(BeamError::BranchExhausted)
        } else {
            let sp = self.spec_spaces()[c];
            let idx = pool_of(self.spec_box(), self.spec_blk(), sp, pool);
            let k = if width < idx.len() {
                width as int
            } else {
                idx.len() as int
            };
            Ok(
                choose|s: Seq<BspaNode>|
                    s.len() == k && forall|i: int|
                        0 <= i < k ==> child_of(*self, sp, self.spec_blk()[idx[i]], #[trigger] s[i]),
            )
        }
    }

    open spec fn spec_inflate(&self, next: &Self) -> bool {
        inflates_to(*self, *next)
    }

    /// The number of candidates the chosen space takes, if any space does.
    open spec fn spec_estimate(&self, pool: usize) -> Option<usize> {
        let c = chosen_space(self.spec_spaces(), self.spec_blk());
        if c >= self.spec_spaces().len() {
            None
        } else {
            Some(pool_of(self.spec_box(), self.spec_blk(), self.spec_spaces()[c], pool).len() as usize)
        }
    }

    proof fn lemma_same(&self, other: &Self) {
        lemma_blocks_measures(self.spec_blocks(), other.spec_blocks());
    }

    /// Every source rectangle is packed, and the node is not the empty one.
    fn has_fulfilled(&self) -> (r: bool) {
        if self.spaces.len() == 0 && self.blocks.len() == 0 && self.avai_box.len() == 0
            && self.avai_blk.len() == 0 {
            return false;
        }
        let mut i: usize = 0;
        while i < self.avai_box.len()
            invariant
                i <= self.avai_box@.len(),
                forall|j: int| 0 <= j < i ==> (#[trigger] self.avai_box@[j]).1 == 0,
            decreases self.avai_box@.len() - i,
        {
            if self.avai_box[i].1 != 0 {
                return false;
            }
            i = i + 1;
        }
        true
    }

    fn expand(&self, width: usize, pool: usize) -> (r: Result<Vec<Self>, BeamError>) {
        self.successors(width, pool)
    }

    fn evaluate(&self) -> (r: u64) {
        let mut total: u64 = 0;
        let mut i: usize = 0;
        while i < self.avai_box.len()
            invariant
                i <= self.avai_box@.len(),
                total == box_total(self.avai_box@.subrange(0, i as int)),
            decreases self.avai_box@.len() - i,
        {
            proof {
                let post = self.avai_box@.subrange(0, i + 1);
                assert(post.drop_last() =~= self.avai_box@.subrange(0, i as int));
                assert(post.last() == self.avai_box@[i as int]);
            }
            total = total.saturating_add(self.avai_box[i].1 as u64);
            i = i + 1;
        }
        proof {
            assert(self.avai_box@.subrange(0, self.avai_box@.len() as int) =~= self.avai_box@);
        }
        let e: Vec<Placement<Rect>> = Vec::new();
        let heur = total.saturating_add(avg_high(&self.avai_box, e.as_slice()));
        proof {
            assert(e@ =~= Seq::<Placement<Rect>>::empty());
        }
        let (w, h, fill) = bounds(self.blocks.as_slice());
        proof {
            assert(w as int * h as int <= u32::MAX as int * u32::MAX as int) by (nonlinear_arith)
                requires
                    w <= u32::MAX,
                    h <= u32::MAX,
            ;
        }
        let area = w as u64 * h as u64;
        let hi = heur;
        let lo = area - fill;
        hi * 0x1_0000_0000 + lo
    }

    /// Grows the container upward until one more block could be placed:
    /// the top spaces are raised, and a full-width space is added on top
    /// when none of them spans the container.
    fn inflate(&mut self)
        ensures
            !old(self).spec_is_empty() ==> exists|d: u32|
                grows_by(*old(self), d) && #[trigger] inflated_by(*old(self), *final(self), d) && (
                lift_fits(*old(self), d) ==> tops_aligned(
                    final(self).spec_spaces(),
                    group_h(old(self).spec_blocks()) as int,
                )),
    {
        if self.spaces.len() == 0 && self.blocks.len() == 0 && self.avai_box.len() == 0
            && self.avai_blk.len() == 0 {
            return;
        }
        let d = self.lookahead();
        let ghost before = *self;
        self.lift(d);
        proof {
            assert(inflated_by(before, *self, d));
        }
    }

    fn estimate(&self, pool: usize) -> (r: Option<usize>) {
        match self.prepare(pool) {
            Ok((_, blocks)) => Some(blocks.len()),
            Err(_) => None,
        }
    }

    fn blank() -> (r: Self) {
        BspaNode {
            spaces: Vec::new(),
            blocks: Vec::new(),
            avai_box: Vec::new(),
            avai_blk: Vec::new(),
        }
    }
}


} // verus!
