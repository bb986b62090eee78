use sprs::beam::{Beam, BeamError, Node};
use sprs::bspa::{assert_node_expand, assert_node_inflate, BspaNode};
use sprs::geom::{Area, Placement, Rect, RectGroup};

const BW: usize = 150_000;
const BB: usize = 15_000;
const N: usize = 250_000;

fn placed_rects(node: &BspaNode) -> Vec<Placement<Rect>> {
    node.blocks().iter().flat_map(|b| b.into_placed_rects()).collect()
}

#[test]
fn simple_atlas_packing() {
    let rect_s = Rect::new(8, 8);
    let rect_l = Rect::new(16, 16);

    let items = [rect_s, rect_s, rect_s, rect_s, rect_l];

    let node = BspaNode::new(&items, 32, N, 1, 1);
    let mut beam: Beam<BW, BB, _> = Beam::from(node).unwrap();

    while !(matches!(beam.cycle(), Err(BeamError::Exhausted)) || beam.has_fulfilled()) {}

    let data = RectGroup::from_list(vec![
        Placement { x: 0, y: 0, item: rect_l },
        Placement { x: 16, y: 0, item: rect_s },
        Placement { x: 16, y: 8, item: rect_s },
        Placement { x: 24, y: 0, item: rect_s },
        Placement { x: 24, y: 8, item: rect_s },
    ]);

    assert!(beam
        .nodes()
        .into_iter()
        .any(|x| RectGroup::from_list(placed_rects(x)).area() == data.area()));
}

#[test]
fn varied_atlas_packing() {
    let items = [
        Rect::new(12, 8),
        Rect::new(8, 4),
        Rect::new(10, 10),
        Rect::new(12, 8),
        Rect::new(15, 15),
        Rect::new(15, 15),
        Rect::new(16, 12),
        Rect::new(8, 18),
        Rect::new(8, 12),
        Rect::new(7, 11),
        Rect::new(13, 6),
        Rect::new(14, 14),
        Rect::new(4, 19),
        Rect::new(2, 10),
        Rect::new(7, 16),
        Rect::new(11, 9),
    ];

    let node = BspaNode::new(&items, items.iter().map(|x| x.w()).max().unwrap() * 2, N, 1, 1);
    let mut beam: Beam<BW, BB, _> = Beam::from(node).unwrap();

    while !(matches!(beam.cycle(), Err(BeamError::Exhausted)) || beam.has_fulfilled()) {}

    beam.extend();
    while !beam.has_fulfilled() {
        beam.cycle().unwrap();
    }

    assert!(beam
        .nodes()
        .into_iter()
        .any(|x| placed_rects(x).len() == items.len()));
}

#[test]
fn root_and_children_keep_the_packing_invariants() {
    let rect_s = Rect::new(8, 8);
    let rect_l = Rect::new(16, 16);
    let root = BspaNode::new(&[rect_s, rect_s, rect_l], 16, 100, 1, 1);
    assert!(assert_node_expand(&root));
    assert!(!root.has_fulfilled());
    assert_eq!(root.blocks().len(), 0);
    let children = root.successors(10, 10).unwrap();
    assert!(!children.is_empty());
    for child in &children {
        assert!(assert_node_expand(child));
        assert_eq!(child.blocks().len(), 1);
        assert_eq!(child.blocks()[0].x, 0);
        assert_eq!(child.blocks()[0].y, 0);
    }
    assert_eq!(root.estimate(10), Some(children.len()));
    assert_eq!(root.estimate(0), Some(0));
    assert!(root.successors(10, 0).unwrap().is_empty());
}

#[test]
fn best_child_packs_everything() {
    let rect_s = Rect::new(8, 8);
    let rect_l = Rect::new(16, 16);
    let root = BspaNode::new(&[rect_s, rect_s, rect_s, rect_s, rect_l], 32, 100, 1, 1);
    let children = root.successors(1, 1).unwrap();
    assert_eq!(children.len(), 1);
    assert!(children[0].has_fulfilled());
    assert_eq!(placed_rects(&children[0]).len(), 5);
    assert_eq!(children[0].evaluate(), 0);
}

#[test]
fn inflate_aligns_the_top_spaces() {
    let items = [Rect::new(10, 10), Rect::new(10, 10), Rect::new(10, 10)];
    let root = BspaNode::new(&items, 20, 100, 1, 1);
    let mut child = root.successors(1, 1).unwrap().remove(0);
    child.inflate();
    assert!(assert_node_inflate(&child));
    assert!(assert_node_expand(&child));
    let mut blank = BspaNode::blank();
    blank.inflate();
    assert!(!blank.has_fulfilled());
}

#[test]
fn basic_beam_functions() {
    const SIDE: u32 = 8;
    const PADD: u32 = 4;
    let rect_0 = Rect::new(SIDE, SIDE);
    let rect_1 = Rect::new(SIDE, PADD);
    let spaces = [
        Placement { x: 0, y: SIDE, item: Rect::new(SIDE * 3, PADD) },
        Placement { x: SIDE, y: PADD, item: Rect::new(SIDE, PADD * 2) },
        Placement { x: SIDE * 3, y: 0, item: Rect::new(PADD, SIDE + PADD) },
    ];

    let tmp = BspaNode::new(&[rect_0, rect_1].repeat(5), SIDE * 3, 0, 1, 1);
    let block = RectGroup::from_list(vec![
        Placement { x: 0, y: 0, item: rect_0 },
        Placement { x: SIDE, y: 0, item: rect_1 },
        Placement { x: SIDE * 2, y: 0, item: rect_0 },
    ]);
    let mut node = BspaNode::with_layout(
        tmp,
        spaces.to_vec(),
        vec![Placement { x: 0, y: 0, item: block }],
    );

    node.inflate();

    let xmax = node.spaces().iter().map(|s| s.x + s.w()).max().unwrap();
    let h = RectGroup::from_list(node.blocks().iter().flat_map(|b| b.into_placed_rects()).collect()).h();
    assert_eq!(
        node.spaces().to_vec(),
        vec![
            Placement { x: spaces[0].x, y: spaces[0].y, item: Rect::new(spaces[0].item.w(), 44 - spaces[0].y) },
            Placement { x: spaces[1].x, y: spaces[1].y, item: Rect::new(spaces[1].item.w(), 44 - spaces[1].y) },
            Placement { x: spaces[2].x, y: spaces[2].y, item: Rect::new(spaces[2].item.w(), 44 - spaces[2].y) },
            Placement { x: 0, y: h, item: Rect::new(xmax, 44 - h) },
        ]
    );
}

#[test]
fn estimate_counts_the_pool() {
    let rect_s = Rect::new(8, 8);
    let root = BspaNode::new(&[rect_s, rect_s], 16, 10, 1, 1);
    let children = root.successors(100, 3).unwrap();
    assert_eq!(root.estimate(3), Some(children.len()));
    assert!(children.len() <= 3);
    let scores: Vec<u64> = children.iter().map(|c| c.evaluate()).collect();
    assert!(!scores.is_empty());
}
