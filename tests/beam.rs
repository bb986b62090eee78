use sprs::beam::{select_best, Beam, BeamError, Node};
use sprs::mock::MockNode;

#[test]
fn simple_cycle() {
    const BW: usize = 1;
    const BB: usize = 1;
    const TH: usize = 1_000;

    let node = MockNode::<TH>::new();
    let mut beam: Beam<BW, BB, _> = Beam::from(node).unwrap();

    assert_eq!(beam.heads()[0].count, 1);

    beam.cycle().unwrap();

    assert_eq!(beam.heads()[0].count, 2);

    while !beam.has_fulfilled() {
        beam.cycle().unwrap()
    }

    assert_eq!(
        beam.nodes()
            .into_iter()
            .min_by_key(|node| node.evaluate())
            .unwrap()
            .count,
        TH
    );
}

#[test]
fn varied_cycle() {
    const BW: usize = 75;
    const BB: usize = 75;
    const TH: usize = 1_425;

    let node = MockNode::<TH>::new();
    let mut beam: Beam<BW, BB, _> = Beam::from(node).unwrap();

    assert_eq!(beam.heads()[0].count, 1);

    beam.cycle().unwrap();

    assert_eq!(beam.heads()[0].count, 76);

    while !beam.has_fulfilled() {
        beam.cycle().unwrap()
    }

    assert_eq!(
        beam.nodes()
            .into_iter()
            .min_by_key(|node| node.evaluate())
            .unwrap()
            .count,
        TH
    );
}

#[test]
fn mock_score_rounds_half_up() {
    assert_eq!(MockNode::<1>::new().evaluate(), u64::MAX);
    assert_eq!(MockNode::<1> { count: 3 }.evaluate(), 3333);
    assert_eq!(MockNode::<1> { count: 32 }.evaluate(), 313);
    assert_eq!(MockNode::<1> { count: 76 }.evaluate(), 132);
    assert_eq!(MockNode::<1> { count: 30000 }.evaluate(), 0);
}

#[test]
fn selection_takes_first_minimum() {
    let succ = vec![
        MockNode::<10> { count: 4 },
        MockNode::<10> { count: 9 },
        MockNode::<10> { count: 9 },
        MockNode::<10> { count: 2 },
    ];
    assert_eq!(select_best(&succ), 1);
}

#[test]
fn estimate_clips_branches_and_fills_blank() {
    let beam: Beam<4, 4, _> = Beam::from_estimate(MockNode::<100> { count: usize::MAX - 2 }, Some(9)).unwrap();
    assert_eq!(beam.heads().len(), 4);
    let counts: Vec<usize> = beam.heads().iter().map(|n| n.count).collect();
    assert_eq!(counts, vec![usize::MAX - 1, usize::MAX, 0, 0]);
    let one: Beam<4, 4, _> = Beam::from_estimate(MockNode::<100>::new(), Some(0)).unwrap();
    assert_eq!(one.heads().len(), 1);
}

#[test]
fn cycle_exhausted_leaves_heads() {
    let mut beam: Beam<2, 2, _> = Beam::from_estimate(MockNode::<100> { count: usize::MAX - 1 }, Some(2)).unwrap();
    let before: Vec<usize> = beam.heads().iter().map(|n| n.count).collect();
    assert_eq!(before, vec![usize::MAX, 0]);
    beam.cycle().unwrap();
    beam.cycle().unwrap();
    let mut exhausted = MockNode::<100> { count: usize::MAX };
    assert_eq!(exhausted.expand(3, 3).unwrap().len(), 0);
    exhausted.inflate();
    let mut stuck: Beam<1, 1, _> = Beam::from_estimate(MockNode::<100> { count: usize::MAX - 1 }, None).unwrap();
    assert_eq!(stuck.cycle(), Err(BeamError::Exhausted));
    assert_eq!(stuck.heads()[0].count, usize::MAX);
}

#[test]
fn mock_expansion_counts_up() {
    let n = MockNode::<10> { count: 4 };
    let v = n.expand(3, 0).unwrap();
    let counts: Vec<usize> = v.iter().map(|m| m.count).collect();
    assert_eq!(counts, vec![5, 6, 7]);
    assert_eq!(n.estimate(5), None);
    let mut beam: Beam<3, 3, _> = Beam::from(n).unwrap();
    let heads: Vec<usize> = beam.heads().iter().map(|m| m.count).collect();
    assert_eq!(heads, vec![5, 6, 7]);
    beam.extend();
    assert_eq!(beam.heads()[0].count, 5);
}
