//! Forward evaluation, loss and the finite-difference trainer.

use prizen::cost::CostFn;
use prizen::fx::SCALE;
use prizen::model::{Model, Observation};
use prizen::node::{AffineNode, LinearNode, Node};

fn fx(x: i64) -> i64 {
    x * SCALE
}

fn line_data() -> Observation {
    Observation {
        ord_in: vec![vec![fx(10)], vec![fx(20)], vec![fx(25)], vec![fx(30)]],
        ord_out: vec![vec![22_500_000], vec![46_500_000], vec![61_100_000], vec![fx(70)]],
    }
}

#[test]
fn calc_flows_through_layers() {
    // Layer 1: [3+1, 3-1] == [4, 2]; layer 2: 0.5*4 + 0.5*2 + 1 == 4.
    let m = Model {
        obs: Observation { ord_in: vec![vec![fx(1), fx(1)]], ord_out: vec![vec![fx(1)]] },
        inputs: 2,
        layers: vec![
            vec![
                Node::Affine(AffineNode { w: vec![fx(1), fx(1)], b: 0, needed: 2 }),
                Node::Affine(AffineNode { w: vec![fx(1), fx(-1)], b: 0, needed: 2 }),
            ],
            vec![Node::Affine(AffineNode { w: vec![500_000, 500_000], b: fx(1), needed: 2 })],
        ],
        alpha: 100,
        cst: CostFn::MeanSq,
    };
    assert_eq!(m.calc(&vec![fx(3), fx(1)]), vec![fx(4)]);
}

#[test]
fn calc_is_deterministic() {
    let m = Model {
        obs: line_data(),
        inputs: 1,
        layers: vec![vec![Node::Affine(AffineNode { w: vec![fx(2)], b: fx(1), needed: 1 })]],
        alpha: 100,
        cst: CostFn::MeanSq,
    };
    let a = m.calc(&vec![fx(25)]);
    let b = m.calc(&vec![fx(25)]);
    assert_eq!(a, b);
}

#[test]
fn loss_applies_the_cost_function() {
    // Predictions 1.0 and 3.0 against targets 2.0 and 5.0 under the plain
    // mean squared error: (1 + 4) / 2 == 2.5.
    let m = Model {
        obs: Observation { ord_in: vec![vec![fx(1)]], ord_out: vec![vec![fx(1)]] },
        inputs: 1,
        layers: vec![vec![Node::Affine(AffineNode { w: vec![fx(1)], b: 0, needed: 1 })]],
        alpha: 100,
        cst: CostFn::MeanSq,
    };
    let is = vec![vec![fx(1)], vec![fx(3)]];
    let os = vec![vec![fx(2)], vec![fx(5)]];
    assert_eq!(m.loss(&is, &os), 2_500_000);
}

#[test]
fn gradient_matches_the_analytic_slope() {
    // One linear unit, one weight w == 1.5, zero bias, one example
    // (x, y) == (2, 1) under the plain squared error: the loss is
    // (x*w - y)^2, so the gradient for w is 2*x*(x*w - y) == 8.
    let mut m = Model {
        obs: Observation { ord_in: vec![vec![fx(2)]], ord_out: vec![vec![fx(1)]] },
        inputs: 1,
        layers: vec![vec![Node::Linear(LinearNode { w: vec![1_500_000], b: 0, needed: 1 })]],
        alpha: 100,
        cst: CostFn::MeanSq,
    };
    let before = m.get_wb();
    let g = m.estimate_gradient();
    assert_eq!(g.len(), 2);
    assert!(g[0] >= 7_990_000 && g[0] <= 8_010_000, "gradient {} not near 8", g[0]);
    // The linear unit's bias cancels, so its gradient is exactly zero.
    assert_eq!(g[1], 0);
    // Probing restored the live parameters.
    assert_eq!(m.get_wb(), before);
}

#[test]
fn descent_is_monotone_and_fits_the_line() {
    // One affine unit trained on four points near y = 2.42*x - 1.5: the
    // loss never rises (beyond numeric noise) and the parameters converge
    // to the least-squares line.
    let mut m = Model {
        obs: line_data(),
        inputs: 1,
        layers: vec![vec![Node::Affine(AffineNode { w: vec![0], b: 0, needed: 1 })]],
        alpha: 1_000,
        cst: CostFn::MeanSq,
    };
    let mut prev = m.loss(&m.obs.ord_in, &m.obs.ord_out);
    let mut n: usize = 0;
    while n < 20_000 {
        m.update_wbs();
        let cur = m.loss(&m.obs.ord_in, &m.obs.ord_out);
        assert!(cur <= prev + 10_000, "loss rose from {} to {} at step {}", prev, cur, n);
        prev = cur;
        n += 1;
    }
    let wbs = m.get_wb();
    assert!(
        wbs[0] >= 2_350_000 && wbs[0] <= 2_500_000,
        "slope {} not near 2.42",
        wbs[0]
    );
    assert!(
        wbs[1] >= -1_700_000 && wbs[1] <= -1_200_000,
        "intercept {} not near -1.5",
        wbs[1]
    );
    assert!(prev <= fx(2), "final loss {} too large", prev);
}

#[test]
fn test() {
    let mut mdl = Model {
        obs: line_data(),
        inputs: 1,
        layers: vec![vec![Node::Linear(LinearNode { w: vec![fx(1)], b: 0, needed: 1 })]],
        alpha: 100,
        cst: CostFn::Mse,
    };
    mdl.train(100000); // train 100,000 iterations
    let wbs = mdl.get_wb();
    println!("The Prizen's Guess: {:?}x + {:?}", wbs[0], wbs[1]);
}
