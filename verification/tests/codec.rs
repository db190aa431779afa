//! The ribbon codec and the shape-keyed codec.

use prizen::cost::CostFn;
use prizen::fx::SCALE;
use prizen::model::{Model, Observation};
use prizen::node::{AffineNode, LinearNode, Node};
use prizen::shape::{Key, WB};

fn fx(x: i64) -> i64 {
    x * SCALE
}

fn two_layer_model() -> Model {
    Model {
        obs: Observation { ord_in: vec![vec![fx(1)]], ord_out: vec![vec![fx(1)]] },
        inputs: 1,
        layers: vec![
            vec![
                Node::Linear(LinearNode { w: vec![fx(2)], b: fx(3), needed: 1 }),
                Node::Affine(AffineNode { w: vec![fx(4)], b: fx(5), needed: 1 }),
            ],
            vec![Node::Affine(AffineNode { w: vec![fx(6), fx(7)], b: fx(8), needed: 2 })],
        ],
        alpha: 100,
        cst: CostFn::Mse,
    }
}

#[test]
fn ribbon_order_is_weights_then_biases() {
    let m = two_layer_model();
    let wbs = m.get_wb();
    assert_eq!(wbs, vec![fx(2), fx(4), fx(6), fx(7), fx(3), fx(5), fx(8)]);
}

#[test]
fn parameter_count_is_weights_plus_units() {
    // 4 weights + 3 units.
    let m = two_layer_model();
    assert_eq!(m.get_wb().len(), 4 + 3);
}

#[test]
fn ribbon_round_trip_leaves_every_unit_unchanged() {
    let mut m = two_layer_model();
    let wbs = m.get_wb();
    m.update_wb(&wbs);
    assert_eq!(m.get_wb(), wbs);
    match &m.layers[0][0] {
        Node::Linear(n) => {
            assert_eq!(n.w, vec![fx(2)]);
            assert_eq!(n.b, fx(3));
        }
        _ => panic!("variant changed"),
    }
    match &m.layers[1][0] {
        Node::Affine(n) => {
            assert_eq!(n.w, vec![fx(6), fx(7)]);
            assert_eq!(n.b, fx(8));
        }
        _ => panic!("variant changed"),
    }
}

#[test]
fn update_wb_consumes_from_the_tail() {
    let mut m = two_layer_model();
    let v = vec![10, 20, 30, 40, 50, 60, 70];
    m.update_wb(&v);
    assert_eq!(m.get_wb(), v);
    match &m.layers[0][1] {
        Node::Affine(n) => {
            assert_eq!(n.w, vec![20]);
            assert_eq!(n.b, 60);
        }
        _ => panic!("variant changed"),
    }
}

#[test]
fn update_wb_ignores_entries_before_the_tail() {
    let mut m = two_layer_model();
    // Two extra entries at the front are never consumed.
    let v = vec![-1, -2, 10, 20, 30, 40, 50, 60, 70];
    m.update_wb(&v);
    assert_eq!(m.get_wb(), vec![10, 20, 30, 40, 50, 60, 70]);
}

#[test]
fn shape_round_trip_rebuilds_the_structure() {
    let s = WB {
        w: vec![
            vec![vec![fx(1), fx(2)], vec![fx(3), fx(4)]],
            vec![vec![fx(5), fx(6)]],
        ],
        b: vec![vec![fx(7), fx(8)], vec![fx(9)]],
    };
    let flat = s.flatten();
    assert_eq!(
        flat,
        vec![fx(1), fx(2), fx(3), fx(4), fx(5), fx(6), fx(7), fx(8), fx(9)]
    );
    let k = Key { layer_count: 2, column_lengths: vec![2, 2, 1] };
    let r = WB::unflatten(k, &flat);
    assert_eq!(r.w, s.w);
    assert_eq!(r.b, s.b);
}

#[test]
fn unflatten_slices_by_widths_alone() {
    // One layer of one unit fed by two inputs.
    let s = WB { w: vec![vec![vec![fx(4), fx(4)]]], b: vec![vec![fx(4)]] };
    let k = Key { layer_count: 1, column_lengths: vec![2, 1] };
    let r = WB::unflatten(k, &s.flatten());
    assert_eq!(r.w, vec![vec![vec![fx(4), fx(4)]]]);
    assert_eq!(r.b, vec![vec![fx(4)]]);
}

#[test]
fn empty_network_passes_input_through() {
    let mut m = Model {
        obs: Observation { ord_in: vec![vec![fx(1), fx(2)]], ord_out: vec![vec![fx(1), fx(2)]] },
        inputs: 2,
        layers: vec![],
        alpha: 100,
        cst: CostFn::MeanSq,
    };
    assert_eq!(m.calc(&vec![fx(1), fx(2)]), vec![fx(1), fx(2)]);
    assert_eq!(m.get_wb(), Vec::<i64>::new());
    m.update_wb(&vec![]);
    assert_eq!(m.get_wb().len(), 0);
}

#[test]
fn boundary_single_unit_network() {
    // A one-layer, one-unit, one-dimensional network needs no special case.
    let mut m = Model {
        obs: Observation { ord_in: vec![vec![fx(2)]], ord_out: vec![vec![fx(3)]] },
        inputs: 1,
        layers: vec![vec![Node::Affine(AffineNode { w: vec![fx(5)], b: fx(1), needed: 1 })]],
        alpha: 100,
        cst: CostFn::MeanSq,
    };
    let wbs = m.get_wb();
    assert_eq!(wbs, vec![fx(5), fx(1)]);
    assert_eq!(wbs.len(), 1 + 1);
    m.update_wb(&wbs);
    assert_eq!(m.get_wb(), wbs);
    assert_eq!(m.calc(&vec![fx(2)]), vec![fx(11)]);
    let k = Key { layer_count: 1, column_lengths: vec![1, 1] };
    let s = WB { w: vec![vec![vec![fx(5)]]], b: vec![vec![fx(1)]] };
    let r = WB::unflatten(k, &s.flatten());
    assert_eq!(r.w, s.w);
    assert_eq!(r.b, s.b);
}
