use sprs::geom::{Area, Placement, Rect, RectGroup};

const SIDE: u32 = 8;
const PADD: u32 = 4;

fn at(x: u32, y: u32, w: u32, h: u32) -> Placement<Rect> {
    Placement { x, y, item: Rect::new(w, h) }
}

#[test]
fn area_area() {
    let rect_s = Rect::new(8, 8);
    assert_eq!(rect_s.area(), 64);
    assert_eq!(rect_s.fill_area(), 64);
}

#[test]
fn group_area_area() {
    let rect_s = Rect::new(8, 8);
    let rect_l = Rect::new(16, 16);
    let rg = RectGroup::from_list(vec![
        Placement { x: 0, y: 0, item: rect_l },
        Placement { x: 16, y: 0, item: rect_s },
        Placement { x: 16, y: 8, item: rect_s },
        Placement { x: 24, y: 0, item: rect_s },
        Placement { x: 24, y: 8, item: rect_s },
    ]);

    assert_eq!(rg.area(), 512);
    assert_eq!(rg.fill_area(), 512);

    let rg = RectGroup::from_list(vec![
        Placement { x: 0, y: 0, item: rect_s },
        Placement { x: 0, y: 8, item: rect_s },
        Placement { x: 0, y: 16, item: rect_s },
        Placement { x: 0, y: 24, item: rect_s },
        Placement { x: 0, y: 32, item: rect_s },
    ]);

    assert_eq!(rg.area(), 320);
    assert_eq!(rg.fill_area(), 320);
}

#[test]
fn basic_split_functions() {
    let lhs = at(0, 0, SIDE, SIDE);
    assert!(lhs.substract(&lhs).is_empty());

    let b1 = at(0, 15, 32, 43);
    let b2 = at(15, 0, 12, 16);
    assert!(b1.overlaps(&b2));

    let b3 = at(16, 0, 16, 58);
    let b4 = at(16, 0, 14, 14);
    assert!(b3.overlaps(&b4));
}

#[test]
fn basic_split_in_corner() {
    let lhs = at(0, 0, SIDE, SIDE);
    let rhs_n = at(0, PADD, SIDE, SIDE);
    let rhs_s = at(0, 0, SIDE, PADD);
    let rhs_e = at(PADD, 0, SIDE, SIDE);
    let rhs_w = at(0, 0, PADD, SIDE);

    assert_eq!(lhs.split_n(&rhs_n), Some(at(0, 0, SIDE, PADD)));
    assert_eq!(lhs.split_s(&rhs_s), Some(at(0, PADD, SIDE, PADD)));
    assert_eq!(lhs.split_e(&rhs_e), Some(at(0, 0, PADD, SIDE)));
    assert_eq!(lhs.split_w(&rhs_w), Some(at(PADD, 0, PADD, SIDE)));

    let rest = [rhs_n, rhs_s, rhs_e, rhs_w].iter().fold(vec![lhs], |acc, rhs| {
        acc.into_iter().flat_map(|l| l.substract(rhs)).collect()
    });
    assert_eq!(rest, Vec::new());
}

#[test]
fn basic_split_in_center() {
    let lhs = at(PADD, PADD, SIDE, SIDE);
    let rhs_n = at(PADD, SIDE, SIDE, SIDE);
    let rhs_s = at(PADD, 0, SIDE, SIDE);
    let rhs_e = at(SIDE, PADD, SIDE, SIDE);
    let rhs_w = at(0, PADD, SIDE, SIDE);

    assert_eq!(lhs.split_n(&rhs_n), Some(at(PADD, PADD, SIDE, PADD)));
    assert_eq!(lhs.split_s(&rhs_s), Some(at(PADD, SIDE, SIDE, PADD)));
    assert_eq!(lhs.split_e(&rhs_e), Some(at(PADD, PADD, PADD, SIDE)));
    assert_eq!(lhs.split_w(&rhs_w), Some(at(SIDE, PADD, PADD, SIDE)));

    let rest = [rhs_n, rhs_s, rhs_e, rhs_w].iter().fold(vec![lhs], |acc, rhs| {
        acc.into_iter().flat_map(|l| l.substract(rhs)).collect()
    });
    assert_eq!(rest, Vec::new());
}

#[test]
fn inter_split_in_corner() {
    let lhs = at(PADD, PADD, SIDE, SIDE);
    let rhs_ne = at(SIDE, SIDE, SIDE, SIDE);
    let rhs_nw = at(0, SIDE, SIDE, SIDE);
    let rhs_se = at(SIDE, 0, SIDE, SIDE);
    let rhs_sw = at(0, 0, SIDE, SIDE);

    assert_eq!(
        lhs.substract(&rhs_ne),
        vec![at(PADD, PADD, SIDE, PADD), at(PADD, PADD, PADD, SIDE)]
    );
    assert_eq!(
        lhs.substract(&rhs_nw),
        vec![at(PADD, PADD, SIDE, PADD), at(SIDE, PADD, PADD, SIDE)]
    );
    assert_eq!(
        lhs.substract(&rhs_se),
        vec![at(PADD, SIDE, SIDE, PADD), at(PADD, PADD, PADD, SIDE)]
    );
    assert_eq!(
        lhs.substract(&rhs_sw),
        vec![at(PADD, SIDE, SIDE, PADD), at(SIDE, PADD, PADD, SIDE)]
    );
}

#[test]
fn inter_split_in_center() {
    let lhs = at(PADD, PADD, SIDE, SIDE);
    let rhs_lat = at(PADD, PADD + SIDE / 4, SIDE, PADD);
    let rhs_lon = at(PADD + SIDE / 4, PADD, PADD, SIDE);
    let rhs_mid = at(PADD + SIDE / 4, PADD + SIDE / 4, PADD, PADD);

    assert_eq!(
        lhs.substract(&rhs_lat),
        vec![
            at(PADD, PADD, SIDE, SIDE / 4),
            at(PADD, PADD + SIDE / 4 * 3, SIDE, SIDE / 4)
        ]
    );
    assert_eq!(
        lhs.substract(&rhs_lon),
        vec![
            at(PADD, PADD, SIDE / 4, SIDE),
            at(PADD + SIDE / 4 * 3, PADD, SIDE / 4, SIDE)
        ]
    );
    let mut both = lhs.substract(&rhs_lat);
    both.extend(lhs.substract(&rhs_lon));
    assert_eq!(lhs.substract(&rhs_mid), both);
}

#[test]
fn bound_avoid_in_center() {
    let lhs = at(PADD, PADD, SIDE, SIDE);
    let rhs_n = at(0, PADD + SIDE + 1, PADD * 2 + SIDE, PADD - 1);
    let rhs_s = at(0, 0, PADD * 2 + SIDE, PADD - 1);
    let rhs_e = at(PADD + SIDE + 1, 0, PADD - 1, PADD * 2 + SIDE);
    let rhs_w = at(0, 0, PADD - 1, PADD * 2 + SIDE);

    assert_eq!(lhs.overlaps(&rhs_n).then_some(lhs.split_n(&rhs_n)).flatten(), None);
    assert_eq!(lhs.overlaps(&rhs_s).then_some(lhs.split_s(&rhs_s)).flatten(), None);
    assert_eq!(lhs.overlaps(&rhs_e).then_some(lhs.split_e(&rhs_e)).flatten(), None);
    assert_eq!(lhs.overlaps(&rhs_w).then_some(lhs.split_w(&rhs_w)).flatten(), None);

    let got = {
        let mut arr = [rhs_n, rhs_s, rhs_e, rhs_w];
        (0..arr.len()).fold(Vec::with_capacity(arr.len()), |mut acc, i| {
            arr.rotate_left(i);
            let item = *arr.first().unwrap();
            acc.extend(
                arr.iter()
                    .skip(1)
                    .filter(|&x| x.overlaps(&item))
                    .flat_map(|x| item.substract(x)),
            );
            acc
        })
    };
    assert_eq!(
        got,
        vec![
            at(rhs_n.x, rhs_n.y, rhs_n.w() - (PADD - 1), rhs_n.h()),
            at(rhs_n.x + (PADD - 1), rhs_n.y, rhs_n.w() - (PADD - 1), rhs_n.h()),
            at(rhs_s.x, rhs_s.y, rhs_s.w() - (PADD - 1), rhs_s.h()),
            at(rhs_s.x + (PADD - 1), rhs_s.y, rhs_s.w() - (PADD - 1), rhs_s.h()),
            at(rhs_w.x, rhs_w.y, rhs_w.w(), rhs_w.h() - (PADD - 1)),
            at(rhs_w.x, rhs_w.y + (PADD - 1), rhs_w.w(), rhs_w.h() - (PADD - 1)),
            at(rhs_e.x, rhs_e.y, rhs_e.w(), rhs_e.h() - (PADD - 1)),
            at(rhs_e.x, rhs_e.y + (PADD - 1), rhs_e.w(), rhs_e.h() - (PADD - 1)),
        ]
    );
}

#[test]
fn splits_saturate_at_the_coordinate_limit() {
    let lhs = at(u32::MAX - 4, 0, 10, 10);
    let rhs = at(u32::MAX - 2, 0, 10, 10);
    assert_eq!(lhs.split_w(&rhs), None);
    assert_eq!(lhs.split_e(&rhs), Some(at(u32::MAX - 4, 0, 2, 10)));
    assert!(lhs.overlaps(&rhs));
}

#[test]
fn group_combine_and_score() {
    let s = Rect::new(8, 8);
    let a = RectGroup::from_list(vec![Placement { x: 0, y: 0, item: s }]);
    let b = RectGroup::from_list(vec![Placement { x: 0, y: 0, item: s }]);
    let (side, stacked) = a.combine(&b);
    assert_eq!((side.w(), side.h()), (16, 8));
    assert_eq!((stacked.w(), stacked.h()), (8, 16));
    assert_eq!(side.list()[1], Placement { x: 8, y: 0, item: s });
    assert_eq!(stacked.list()[1], Placement { x: 0, y: 8, item: s });
    let space = at(0, 0, 32, 8);
    assert_eq!(side.score(&space, 5), 256 - 128 + 5);
    let placed = Placement { x: 3, y: 4, item: side };
    assert_eq!(
        placed.into_placed_rects(),
        vec![
            Placement { x: 3, y: 4, item: s },
            Placement { x: 11, y: 4, item: s }
        ]
    );
}
