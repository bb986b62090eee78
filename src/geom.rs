//! Geometric primitives of the bin-packer: rectangles, positioned items, and
//! their overlap and split algebra on `u32` coordinates.
use vstd::prelude::*;

verus! {

/// What the packer reads of an item: its extent, the area it occupies and
/// the area it fills.
pub trait Area {
    spec fn spec_w(&self) -> u32;

    spec fn spec_h(&self) -> u32;

    spec fn spec_area(&self) -> u64;

    spec fn spec_fill(&self) -> u64;

    /// Occupied area.
    fn area(&self) -> (r: u64)
        ensures
            r == self.spec_area(),
    ;

    /// Area filled inside the item.
    fn fill_area(&self) -> (r: u64)
        ensures
            r == self.spec_fill(),
    ;

    /// Width.
    fn w(&self) -> (r: u32)
        ensures
            r == self.spec_w(),
    ;

    /// Height.
    fn h(&self) -> (r: u32)
        ensures
            r == self.spec_h(),
    ;
}

/// A width and a height; the area is computed once, at construction.
#[derive(Debug, Clone, Copy, PartialEq, Eq, Hash, Structural)]
pub struct Rect {
    w: u32,
    h: u32,
    s: u64,
}

/// The rectangle `w` by `h`.
pub closed spec fn rect_spec(w: u32, h: u32) -> Rect {
    Rect { w, h, s: (w * h) as u64 }
}

/// What a rectangle built from `w` and `h` reports.
pub broadcast proof fn lemma_rect_spec(w: u32, h: u32)
    ensures
        #![trigger rect_spec(w, h)]
        rect_spec(w, h).spec_w() == w,
        rect_spec(w, h).spec_h() == h,
        rect_spec(w, h).spec_area() == w * h,
        rect_spec(w, h).spec_fill() == w * h,
{
    assert(w * h <= u32::MAX * u32::MAX) by (nonlinear_arith);
}

impl Rect {
    /// The stored area is the product of the sides.
    #[verifier::type_invariant]
    spec fn area_matches(self) -> bool {
        self.s == self.w * self.h
    }

    /// The sides; the area is their product.
    pub fn dims(&self) -> (r: (u32, u32))
        ensures
            r == (self.spec_w(), self.spec_h()),
            self.spec_area() == self.spec_w() * self.spec_h(),
    {
        proof {
            use_type_invariant(self);
        }
        (self.w, self.h)
    }

    /// The rectangle `w` by `h`.
    pub fn new(w: u32, h: u32) -> (r: Rect)
        ensures
            r == rect_spec(w, h),
    {
        proof {
            assert(w * h <= u32::MAX * u32::MAX) by (nonlinear_arith);
        }
        Rect { w, h, s: w as u64 * h as u64 }
    }
}

impl Area for Rect {
    closed spec fn spec_w(&self) -> u32 {
        self.w
    }

    closed spec fn spec_h(&self) -> u32 {
        self.h
    }

    closed spec fn spec_area(&self) -> u64 {
        self.s
    }

    closed spec fn spec_fill(&self) -> u64 {
        self.s
    }

    fn area(&self) -> (r: u64) {
        self.s
    }

    fn fill_area(&self) -> (r: u64) {
        self.s
    }

    fn w(&self) -> (r: u32) {
        self.w
    }

    fn h(&self) -> (r: u32) {
        self.h
    }
}

/// An item placed with its lower-left corner at `(x, y)`.
#[derive(Debug, Clone, Copy, PartialEq, Eq)]
pub struct Placement<T> {
    pub x: u32,
    pub y: u32,
    pub item: T,
}

/// Right edge, `x + w`.
pub open spec fn right<T: Area>(p: Placement<T>) -> int {
    p.x + p.item.spec_w()
}

/// Top edge, `y + h`.
pub open spec fn top<T: Area>(p: Placement<T>) -> int {
    p.y + p.item.spec_h()
}

/// `v` clamped to the `u32` range.
pub open spec fn sat(v: int) -> u32 {
    if v > u32::MAX {
        u32::MAX
    } else if v < 0 {
        0
    } else {
        v as u32
    }
}

/// Half-open boxes `[x, x + w) x [y, y + h)` that share a point.
pub open spec fn overlap<T: Area, U: Area>(a: Placement<T>, b: Placement<U>) -> bool {
    &&& b.x < right(a)
    &&& right(b) > a.x
    &&& b.y < top(a)
    &&& top(b) > a.y
}

/// The part of `a` below `b`, when `b` starts above `a`'s bottom.
pub open spec fn split_n_spec<T: Area, U: Area>(a: Placement<T>, b: Placement<U>) -> Option<
    Placement<Rect>,
> {
    if b.y > a.y {
        Some(Placement { x: a.x, y: a.y, item: rect_spec(a.item.spec_w(), sat(b.y - a.y)) })
    } else {
        None
    }
}

/// The part of `a` above `b`, when `b` ends below `a`'s top.
pub open spec fn split_s_spec<T: Area, U: Area>(a: Placement<T>, b: Placement<U>) -> Option<
    Placement<Rect>,
> {
    if sat(top(b)) < sat(top(a)) {
        Some(
            Placement {
                x: a.x,
                y: sat(top(b)),
                item: rect_spec(a.item.spec_w(), sat(sat(top(a)) - sat(top(b)))),
            },
        )
    } else {
        None
    }
}

/// The part of `a` left of `b`, when `b` starts right of `a`'s left edge.
pub open spec fn split_e_spec<T: Area, U: Area>(a: Placement<T>, b: Placement<U>) -> Option<
    Placement<Rect>,
> {
    if b.x > a.x {
        Some(Placement { x: a.x, y: a.y, item: rect_spec(sat(b.x - a.x), a.item.spec_h()) })
    } else {
        None
    }
}

/// The part of `a` right of `b`, when `b` ends left of `a`'s right edge.
pub open spec fn split_w_spec<T: Area, U: Area>(a: Placement<T>, b: Placement<U>) -> Option<
    Placement<Rect>,
> {
    if sat(right(b)) < sat(right(a)) {
        Some(
            Placement {
                x: sat(right(b)),
                y: a.y,
                item: rect_spec(sat(sat(right(a)) - sat(right(b))), a.item.spec_h()),
            },
        )
    } else {
        None
    }
}

/// `s` with the slab of `o` appended when there is one of positive area.
pub open spec fn push_slab(s: Seq<Placement<Rect>>, o: Option<Placement<Rect>>) -> Seq<
    Placement<Rect>,
> {
    match o {
        Some(p) => if p.item.spec_area() > 0 {
            s.push(p)
        } else {
            s
        },
        None => s,
    }
}

/// The slabs of `a` around `b` with positive area, in the order north,
/// south, east, west.
pub open spec fn subtract_spec<T: Area, U: Area>(a: Placement<T>, b: Placement<U>) -> Seq<
    Placement<Rect>,
> {
    push_slab(
        push_slab(
            push_slab(push_slab(Seq::empty(), split_n_spec(a, b)), split_s_spec(a, b)),
            split_e_spec(a, b),
        ),
        split_w_spec(a, b),
    )
}

impl<T: Area> Area for Placement<T> {
    open spec fn spec_w(&self) -> u32 {
        self.item.spec_w()
    }

    open spec fn spec_h(&self) -> u32 {
        self.item.spec_h()
    }

    open spec fn spec_area(&self) -> u64 {
        self.item.spec_area()
    }

    open spec fn spec_fill(&self) -> u64 {
        self.item.spec_fill()
    }

    fn area(&self) -> (r: u64) {
        self.item.area()
    }

    fn fill_area(&self) -> (r: u64) {
        self.item.fill_area()
    }

    fn w(&self) -> (r: u32) {
        self.item.w()
    }

    fn h(&self) -> (r: u32) {
        self.item.h()
    }
}

/// `a` comes before `b` in bottom-first, then left-first order: `(y, x)`
/// compared lexicographically.
pub open spec fn precedes_spec<T, U>(a: Placement<T>, b: Placement<U>) -> bool {
    a.y < b.y || (a.y == b.y && a.x < b.x)
}

impl<T> Placement<T> {
    /// Whether `self` comes before `other` in `(y, x)` order.
    pub fn precedes<U>(&self, other: &Placement<U>) -> (r: bool)
        ensures
            r == precedes_spec(*self, *other),
    {
        self.y < other.y || (self.y == other.y && self.x < other.x)
    }

    /// The `(y, x)` order of the two positions.
    pub fn cmp_pos<U>(&self, other: &Placement<U>) -> (r: core::cmp::Ordering)
        ensures
            (r == core::cmp::Ordering::Less) == precedes_spec(*self, *other),
            (r == core::cmp::Ordering::Greater) == precedes_spec(*other, *self),
            (r == core::cmp::Ordering::Equal) == (self.x == other.x && self.y == other.y),
    {
        if self.precedes(other) {
            core::cmp::Ordering::Less
        } else if other.precedes(self) {
            core::cmp::Ordering::Greater
        } else {
            core::cmp::Ordering::Equal
        }
    }
}

impl<T: Area> Placement<T> {
    /// Whether the two boxes share a point.
    pub fn overlaps<U: Area>(&self, rhs: &Placement<U>) -> (r: bool)
        ensures
            r == overlap(*self, *rhs),
    {
        let l_x = self.x as u64 + self.item.w() as u64;
        let l_y = self.y as u64 + self.item.h() as u64;
        let r_x = rhs.x as u64 + rhs.item.w() as u64;
        let r_y = rhs.y as u64 + rhs.item.h() as u64;
        ((rhs.x as u64) < l_x && r_x > self.x as u64) && ((rhs.y as u64) < l_y && r_y
            > self.y as u64)
    }

    /// The part of `self` below `rhs`.
    pub fn split_n<U: Area>(&self, rhs: &Placement<U>) -> (r: Option<Placement<Rect>>)
        ensures
            r == split_n_spec(*self, *rhs),
    {
        if rhs.y > self.y {
            Some(Placement { x: self.x, y: self.y, item: Rect::new(self.item.w(), rhs.y - self.y) })
        } else {
            None
        }
    }

    /// The part of `self` above `rhs`.
    pub fn split_s<U: Area>(&self, rhs: &Placement<U>) -> (r: Option<Placement<Rect>>)
        ensures
            r == split_s_spec(*self, *rhs),
    {
        let r_top = rhs.y.saturating_add(rhs.item.h());
        let l_top = self.y.saturating_add(self.item.h());
        if r_top < l_top {
            Some(Placement { x: self.x, y: r_top, item: Rect::new(self.item.w(), l_top - r_top) })
        } else {
            None
        }
    }

    /// The part of `self` left of `rhs`.
    pub fn split_e<U: Area>(&self, rhs: &Placement<U>) -> (r: Option<Placement<Rect>>)
        ensures
            r == split_e_spec(*self, *rhs),
    {
        if rhs.x > self.x {
            Some(Placement { x: self.x, y: self.y, item: Rect::new(rhs.x - self.x, self.item.h()) })
        } else {
            None
        }
    }

    /// The part of `self` right of `rhs`.
    pub fn split_w<U: Area>(&self, rhs: &Placement<U>) -> (r: Option<Placement<Rect>>)
        ensures
            r == split_w_spec(*self, *rhs),
    {
        let r_right = rhs.x.saturating_add(rhs.item.w());
        let l_right = self.x.saturating_add(self.item.w());
        if r_right < l_right {
            Some(
                Placement { x: r_right, y: self.y, item: Rect::new(l_right - r_right, self.item.h()) },
            )
        } else {
            None
        }
    }

    /// The slabs of `self` around `rhs` with positive area, in the order
    /// north, south, east, west.
    pub fn substract<U: Area>(&self, rhs: &Placement<U>) -> (r: Vec<Placement<Rect>>)
        ensures
            r@ == subtract_spec(*self, *rhs),
    {
        let mut r: Vec<Placement<Rect>> = Vec::new();
        push_slab_exec(&mut r, self.split_n(rhs));
        push_slab_exec(&mut r, self.split_s(rhs));
        push_slab_exec(&mut r, self.split_e(rhs));
        push_slab_exec(&mut r, self.split_w(rhs));
        r
    }
}

/// `v` clamped to the `u64` range.
pub open spec fn sat64(v: int) -> u64 {
    if v > u64::MAX {
        u64::MAX
    } else if v < 0 {
        0
    } else {
        v as u64
    }
}

/// Smallest left edge of a non-empty list.
pub open spec fn min_x<T: Area>(l: Seq<Placement<T>>) -> int
    decreases l.len(),
{
    if l.len() <= 1 {
        if l.len() == 1 { l[0].x as int } else { 0 }
    } else {
        let m = min_x(l.drop_last());
        if l.last().x < m { l.last().x as int } else { m }
    }
}

/// Largest right edge of a non-empty list.
pub open spec fn max_right<T: Area>(l: Seq<Placement<T>>) -> int
    decreases l.len(),
{
    if l.len() <= 1 {
        if l.len() == 1 { right(l[0]) } else { 0 }
    } else {
        let m = max_right(l.drop_last());
        if right(l.last()) > m { right(l.last()) } else { m }
    }
}

/// Smallest bottom edge of a non-empty list.
pub open spec fn min_y<T: Area>(l: Seq<Placement<T>>) -> int
    decreases l.len(),
{
    if l.len() <= 1 {
        if l.len() == 1 { l[0].y as int } else { 0 }
    } else {
        let m = min_y(l.drop_last());
        if l.last().y < m { l.last().y as int } else { m }
    }
}

/// Largest top edge of a non-empty list.
pub open spec fn max_top<T: Area>(l: Seq<Placement<T>>) -> int
    decreases l.len(),
{
    if l.len() <= 1 {
        if l.len() == 1 { top(l[0]) } else { 0 }
    } else {
        let m = max_top(l.drop_last());
        if top(l.last()) > m { top(l.last()) } else { m }
    }
}

/// Sum of the areas of the list, saturating.
pub open spec fn fill_sum<T: Area>(l: Seq<Placement<T>>) -> u64
    decreases l.len(),
{
    if l.len() == 0 {
        0
    } else {
        sat64(fill_sum(l.drop_last()) + l.last().item.spec_area())
    }
}

/// Width of the bounding box of the list.
pub open spec fn group_w<T: Area>(l: Seq<Placement<T>>) -> u32 {
    sat(max_right(l) - min_x(l))
}

/// Height of the bounding box of the list.
pub open spec fn group_h<T: Area>(l: Seq<Placement<T>>) -> u32 {
    sat(max_top(l) - min_y(l))
}

/// The list moved by `(dx, dy)`, coordinates clamped to `u32`.
pub open spec fn shifted(l: Seq<Placement<Rect>>, dx: u32, dy: u32) -> Seq<Placement<Rect>> {
    l.map_values(|p: Placement<Rect>| Placement { x: sat(p.x + dx), y: sat(p.y + dy), item: p.item })
}

/// Rectangles placed relative to a common origin, treated as one block. Its
/// width, height, area and fill are computed once, when the group is built.
#[derive(Debug, Clone, PartialEq)]
pub struct RectGroup {
    list: Vec<Placement<Rect>>,
    a: u64,
    f: u64,
    w: u32,
    h: u32,
}

impl Area for RectGroup {
    closed spec fn spec_w(&self) -> u32 {
        self.w
    }

    closed spec fn spec_h(&self) -> u32 {
        self.h
    }

    closed spec fn spec_area(&self) -> u64 {
        self.a
    }

    closed spec fn spec_fill(&self) -> u64 {
        self.f
    }

    fn area(&self) -> (r: u64) {
        self.a
    }

    fn fill_area(&self) -> (r: u64) {
        self.f
    }

    fn w(&self) -> (r: u32) {
        self.w
    }

    fn h(&self) -> (r: u32) {
        self.h
    }
}

impl RectGroup {
    /// The rectangles of the group.
    pub closed spec fn spec_list(&self) -> Seq<Placement<Rect>> {
        self.list@
    }

    /// The computed measures agree with the list.
    pub open spec fn wf(&self) -> bool {
        &&& self.spec_w() == group_w(self.spec_list())
        &&& self.spec_h() == group_h(self.spec_list())
        &&& self.spec_area() == self.spec_w() * self.spec_h()
        &&& self.spec_fill() == fill_sum(self.spec_list())
    }

    /// A copy of the group.
    pub fn duplicate(&self) -> (r: RectGroup)
        ensures
            r.spec_list() == self.spec_list(),
            r.spec_w() == self.spec_w(),
            r.spec_h() == self.spec_h(),
            r.spec_area() == self.spec_area(),
            r.spec_fill() == self.spec_fill(),
    {
        let e: Vec<Placement<Rect>> = Vec::new();
        let list = join_shifted(&e, &self.list, 0, 0);
        proof {
            assert(list@ =~= self.list@) by {
                assert forall|i: int| 0 <= i < self.list@.len() implies list@[i] == self.list@[i] by {
                    assert(list@[i] == shifted(self.list@, 0, 0)[i]);
                }
            }
        }
        RectGroup { list, a: self.a, f: self.f, w: self.w, h: self.h }
    }

    /// The rectangles of the group.
    pub fn list(&self) -> (r: &[Placement<Rect>])
        ensures
            r@ == self.spec_list(),
    {
        self.list.as_slice()
    }

    /// The group of the rectangles of `list`.
    pub fn from_list(list: Vec<Placement<Rect>>) -> (r: RectGroup)
        ensures
            r.wf(),
            r.spec_list() == list@,
    {
        let (w, h, fill) = bounds(list.as_slice());
        proof {
            assert(w * h <= u32::MAX * u32::MAX) by (nonlinear_arith);
        }
        RectGroup { list, a: w as u64 * h as u64, f: fill, w, h }
    }

    /// Score of placing the group into `space`: the room it leaves, plus the
    /// rounded average height of what remains to be packed. The space must
    /// be at least as large as the group.
    pub fn score(&self, space: &Placement<Rect>, avg_high: u64) -> (r: u64)
        requires
            self.spec_area() <= space.item.spec_area(),
        ensures
            r == sat64(space.item.spec_area() - self.spec_area() + avg_high),
    {
        (space.item.area() - self.area()).saturating_add(avg_high)
    }

    /// The two ways of joining `other` to `self`: side by side (`other`
    /// moved right by the width of `self`) and stacked (`other` moved up by
    /// its height).
    pub fn combine(&self, other: &RectGroup) -> (r: (RectGroup, RectGroup))
        ensures
            r.0.wf(),
            r.1.wf(),
            r.0.spec_list() == self.spec_list() + shifted(other.spec_list(), self.spec_w(), 0),
            r.1.spec_list() == self.spec_list() + shifted(other.spec_list(), 0, self.spec_h()),
    {
        let w = self.w();
        let h = self.h();
        let side = join_shifted(&self.list, &other.list, w, 0);
        let stacked = join_shifted(&self.list, &other.list, 0, h);
        (RectGroup::from_list(side), RectGroup::from_list(stacked))
    }
}

/// Width and height of the bounding box of `l`, and the sum of the areas of
/// its items.
pub fn bounds<T: Area>(l: &[Placement<T>]) -> (r: (u32, u32, u64))
    ensures
        r.0 == group_w(l@),
        r.1 == group_h(l@),
        r.2 == fill_sum(l@),
{
    let n = l.len();
    let mut xmin: u64 = 0;
    let mut xmax: u64 = 0;
    let mut ymin: u64 = 0;
    let mut ymax: u64 = 0;
    let mut fill: u64 = 0;
    let mut i: usize = 0;
    while i < n
        invariant
            n == l@.len(),
            i <= n,
            xmin == min_x(l@.subrange(0, i as int)),
            xmax == max_right(l@.subrange(0, i as int)),
            ymin == min_y(l@.subrange(0, i as int)),
            ymax == max_top(l@.subrange(0, i as int)),
            fill == fill_sum(l@.subrange(0, i as int)),
            xmax <= 2 * (u32::MAX as int),
            ymax <= 2 * (u32::MAX as int),
            xmin <= u32::MAX,
            ymin <= u32::MAX,
        decreases n - i,
    {
        let p = &l[i];
        let px = p.x as u64;
        let py = p.y as u64;
        let pr = p.x as u64 + p.item.w() as u64;
        let pt = p.y as u64 + p.item.h() as u64;
        let pa = p.item.area();
        proof {
            let pre = l@.subrange(0, i as int);
            let post = l@.subrange(0, i + 1);
            assert(post.drop_last() =~= pre);
            assert(post.last() == *p);
            if i == 0 {
                assert(post.len() == 1);
                assert(post[0] == *p);
            }
        }
        if i == 0 {
            xmin = px;
            xmax = pr;
            ymin = py;
            ymax = pt;
        } else {
            if px < xmin {
                xmin = px;
            }
            if pr > xmax {
                xmax = pr;
            }
            if py < ymin {
                ymin = py;
            }
            if pt > ymax {
                ymax = pt;
            }
        }
        fill = fill.saturating_add(pa);
        i = i + 1;
    }
    proof {
        assert(l@.subrange(0, n as int) =~= l@);
    }
    let dw = if xmax >= xmin {
        xmax - xmin
    } else {
        0
    };
    let dh = if ymax >= ymin {
        ymax - ymin
    } else {
        0
    };
    let w: u32 = if dw > u32::MAX as u64 {
        u32::MAX
    } else {
        dw as u32
    };
    let h: u32 = if dh > u32::MAX as u64 {
        u32::MAX
    } else {
        dh as u32
    };
    (w, h, fill)
}

/// `a` followed by `b` moved by `(dx, dy)`.
fn join_shifted(a: &Vec<Placement<Rect>>, b: &Vec<Placement<Rect>>, dx: u32, dy: u32) -> (r: Vec<
    Placement<Rect>,
>)
    ensures
        r@ == a@ + shifted(b@, dx, dy),
{
    let mut r: Vec<Placement<Rect>> = Vec::new();
    let mut i: usize = 0;
    while i < a.len()
        invariant
            i <= a@.len(),
            r@ == a@.subrange(0, i as int),
        decreases a@.len() - i,
    {
        r.push(a[i]);
        i = i + 1;
        proof {
            assert(r@ =~= a@.subrange(0, i as int));
        }
    }
    let mut j: usize = 0;
    while j < b.len()
        invariant
            j <= b@.len(),
            a@.subrange(0, a@.len() as int) == a@,
            r@ == a@ + shifted(b@, dx, dy).subrange(0, j as int),
        decreases b@.len() - j,
    {
        let p = b[j];
        r.push(Placement { x: p.x.saturating_add(dx), y: p.y.saturating_add(dy), item: p.item });
        j = j + 1;
        proof {
            assert(r@ =~= a@ + shifted(b@, dx, dy).subrange(0, j as int));
        }
    }
    proof {
        assert(shifted(b@, dx, dy).subrange(0, b@.len() as int) =~= shifted(b@, dx, dy));
    }
    r
}

impl Placement<RectGroup> {
    /// The rectangles of the group at their positions in the container.
    pub fn into_placed_rects(&self) -> (r: Vec<Placement<Rect>>)
        ensures
            r@ == shifted(self.item.spec_list(), self.x, self.y),
    {
        let e: Vec<Placement<Rect>> = Vec::new();
        let r = join_shifted(&e, &self.item.list, self.x, self.y);
        proof {
            assert(e@ + shifted(self.item.list@, self.x, self.y) =~= shifted(
                self.item.list@,
                self.x,
                self.y,
            ));
        }
        r
    }
}

fn push_slab_exec(v: &mut Vec<Placement<Rect>>, o: Option<Placement<Rect>>)
    ensures
        final(v)@ == push_slab(old(v)@, o),
{
    match o {
        Some(p) => if p.item.area() > 0 {
            v.push(p);
        },
        None => {},
    }
}

} // verus!
