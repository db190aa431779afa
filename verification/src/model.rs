//! The network: ordered layers of units, forward evaluation, loss, the
//! tail-first ribbon codec, and the finite-difference trainer.
//!
//! The ribbon is the canonical flat encoding of every parameter: all weight
//! vectors first (layer-major, then unit-major), then all biases in the
//! same order. `get_wb` produces it; `update_wb` consumes it from the tail
//! in two full reverse-order passes (biases first, then weights), which is
//! exactly inverse to `get_wb`.

use vstd::prelude::*;
use vstd::pervasive::VecAdditionalExecFns;
use crate::node::{Node, NodeV, eval_node};
use crate::node::copy_scalars;
use crate::cost::{CostFn, cost_spec, batch_ok, lemma_rows_dv};
use crate::fx::{fx_add, fx_sub, fx_mul, fx_div, fx_add_spec, fx_sub_spec, fx_mul_spec,
    fx_div_spec};

verus! {

/// The finite-difference probe step: each parameter is nudged up and down
/// by this much (one thousandth in fixed point) to estimate its gradient.
pub const H_STEP: i64 = 1_000;

/// Number of weights held by the units of one layer.
pub open spec fn layer_w_count(layer: Seq<NodeV>) -> nat
    decreases layer.len(),
{
    if layer.len() == 0 {
        0
    } else {
        layer_w_count(layer.drop_last()) + layer.last().w.len()
    }
}

/// Number of weights held by the whole network.
pub open spec fn w_count(l: Seq<Seq<NodeV>>) -> nat
    decreases l.len(),
{
    if l.len() == 0 {
        0
    } else {
        w_count(l.drop_last()) + layer_w_count(l.last())
    }
}

/// Number of units in the whole network.
pub open spec fn unit_count(l: Seq<Seq<NodeV>>) -> nat
    decreases l.len(),
{
    if l.len() == 0 {
        0
    } else {
        unit_count(l.drop_last()) + l.last().len()
    }
}

/// The weight vectors of one layer, concatenated in unit order.
pub open spec fn layer_ws(layer: Seq<NodeV>) -> Seq<i64>
    decreases layer.len(),
{
    if layer.len() == 0 {
        Seq::empty()
    } else {
        layer_ws(layer.drop_last()) + layer.last().w
    }
}

/// All weight vectors of the network, concatenated layer-major.
pub open spec fn all_ws(l: Seq<Seq<NodeV>>) -> Seq<i64>
    decreases l.len(),
{
    if l.len() == 0 {
        Seq::empty()
    } else {
        all_ws(l.drop_last()) + layer_ws(l.last())
    }
}

/// The biases of one layer, in unit order.
pub open spec fn layer_bs(layer: Seq<NodeV>) -> Seq<i64>
    decreases layer.len(),
{
    if layer.len() == 0 {
        Seq::empty()
    } else {
        layer_bs(layer.drop_last()).push(layer.last().b)
    }
}

/// All biases of the network, layer-major.
pub open spec fn all_bs(l: Seq<Seq<NodeV>>) -> Seq<i64>
    decreases l.len(),
{
    if l.len() == 0 {
        Seq::empty()
    } else {
        all_bs(l.drop_last()) + layer_bs(l.last())
    }
}

/// The canonical flat encoding of every parameter: weights, then biases.
pub open spec fn ribbon_of(l: Seq<Seq<NodeV>>) -> Seq<i64> {
    all_ws(l) + all_bs(l)
}

/// One layer's output: each unit evaluated on the same input vector.
pub open spec fn layer_eval(layer: Seq<NodeV>, xs: Seq<i64>) -> Seq<i64> {
    Seq::new(layer.len(), |j: int| eval_node(layer[j], xs) as i64)
}

/// The vector after flowing through the first `k` layers.
pub open spec fn forward_thru(l: Seq<Seq<NodeV>>, xs: Seq<i64>, k: int) -> Seq<i64>
    decreases k,
{
    if k <= 0 {
        xs
    } else {
        layer_eval(l[k - 1], forward_thru(l, xs, k - 1))
    }
}

/// The network's output on an input vector.
pub open spec fn forward_spec(l: Seq<Seq<NodeV>>, xs: Seq<i64>) -> Seq<i64> {
    forward_thru(l, xs, l.len() as int)
}

/// Width of the vector entering layer `k`.
pub open spec fn width_in(l: Seq<Seq<NodeV>>, inputs: int, k: int) -> int {
    if k == 0 {
        inputs
    } else {
        l[k - 1].len() as int
    }
}

/// Width of the network's output.
pub open spec fn out_width(l: Seq<Seq<NodeV>>, inputs: int) -> int {
    if l.len() == 0 {
        inputs
    } else {
        l[l.len() - 1].len() as int
    }
}

/// Architectural invariant: every unit holds exactly one weight per entry
/// of the vector its layer consumes.
pub open spec fn arch_ok(l: Seq<Seq<NodeV>>, inputs: int) -> bool {
    forall|k: int, j: int|
        0 <= k < l.len() && 0 <= j < l[k].len() ==> #[trigger] l[k][j].w.len() == width_in(
            l,
            inputs,
            k,
        )
}

/// The training dataset: ordered input vectors paired with ordered target
/// vectors.
pub struct Observation {
    pub ord_in: Vec<Vec<i64>>,
    pub ord_out: Vec<Vec<i64>>,
}

/// A network: ordered layers of units, its dataset, input width, learning
/// rate and cost function.
pub struct Model {
    pub obs: Observation,
    pub inputs: usize,
    pub layers: Vec<Vec<Node>>,
    pub alpha: i64,
    pub cst: CostFn,
}

pub(crate) proof fn lemma_layers_dv(v: Vec<Vec<Node>>)
    ensures
        v.deep_view().len() == v@.len(),
        forall|k: int| 0 <= k < v@.len() ==> #[trigger] v.deep_view()[k].len() == v@[k]@.len(),
        forall|k: int, j: int|
            0 <= k < v@.len() && 0 <= j < v@[k]@.len() ==> #[trigger] v.deep_view()[k][j]
                == v@[k]@[j]@,
{
    assert forall|k: int| 0 <= k < v@.len() implies #[trigger] v.deep_view()[k].len()
        == v@[k]@.len() by {
        assert(v.deep_view()[k] == v@[k].deep_view());
    }
    assert forall|k: int, j: int|
        0 <= k < v@.len() && 0 <= j < v@[k]@.len() implies #[trigger] v.deep_view()[k][j]
        == v@[k]@[j]@ by {
        assert(v.deep_view()[k] == v@[k].deep_view());
        assert(v@[k].deep_view()[j] == v@[k]@[j].deep_view());
    }
}

impl Model {
    /// The spec-level image of the layers.
    pub open spec fn lv(&self) -> Seq<Seq<NodeV>> {
        self.layers.deep_view()
    }

    /// Every unit's `needed` agrees with the length of its weight vector.
    pub open spec fn nodes_wf(&self) -> bool {
        forall|k: int, j: int|
            0 <= k < self.layers@.len() && 0 <= j < self.layers@[k]@.len()
                ==> (#[trigger] self.layers@[k]@[j]).wf()
    }

    /// Well-formed network: unit invariants hold and layer widths agree.
    pub open spec fn wf(&self) -> bool {
        self.nodes_wf() && arch_ok(self.lv(), self.inputs as int)
    }

    /// Total number of parameters in the ribbon.
    pub open spec fn param_count(&self) -> nat {
        w_count(self.lv()) + unit_count(self.lv())
    }

    /// Forward evaluation: transforms the vector through each layer in
    /// order; each layer's output lists its units' values on the previous
    /// vector.
    pub fn calc(&self, v: &Vec<i64>) -> (r: Vec<i64>)
        requires
            self.wf(),
            v@.len() == self.inputs,
        ensures
            r@ == forward_spec(self.lv(), v@),
    {
        proof {
            lemma_layers_dv(self.layers);
        }
        let mut prev = copy_scalars(v);
        let mut k: usize = 0;
        while k < self.layers.len()
            invariant
                self.wf(),
                v@.len() == self.inputs,
                k <= self.layers@.len(),
                self.lv().len() == self.layers@.len(),
                forall|kk: int|
                    0 <= kk < self.layers@.len() ==> #[trigger] self.lv()[kk].len()
                        == self.layers@[kk]@.len(),
                forall|kk: int, j: int|
                    0 <= kk < self.layers@.len() && 0 <= j < self.layers@[kk]@.len()
                        ==> #[trigger] self.lv()[kk][j] == self.layers@[kk]@[j]@,
                prev@ == forward_thru(self.lv(), v@, k as int),
                prev@.len() == width_in(self.lv(), self.inputs as int, k as int),
            decreases self.layers@.len() - k,
        {
            let layer = &self.layers[k];
            let mut next: Vec<i64> = Vec::new();
            let mut j: usize = 0;
            while j < layer.len()
                invariant
                    self.wf(),
                    k < self.layers@.len(),
                    self.lv().len() == self.layers@.len(),
                    layer == self.layers@[k as int],
                    self.lv()[k as int].len() == layer@.len(),
                    forall|jj: int|
                        0 <= jj < layer@.len() ==> #[trigger] self.lv()[k as int][jj]
                            == layer@[jj]@,
                    j <= layer@.len(),
                    prev@.len() == width_in(self.lv(), self.inputs as int, k as int),
                    next@.len() == j,
                    forall|jj: int|
                        0 <= jj < j ==> #[trigger] next@[jj] == eval_node(
                            self.lv()[k as int][jj],
                            prev@,
                        ) as i64,
                decreases layer@.len() - j,
            {
                proof {
                    assert(self.lv()[k as int][j as int].w.len() == width_in(
                        self.lv(),
                        self.inputs as int,
                        k as int,
                    ));
                }
                next.push(layer[j].get_value(&prev));
                j += 1;
            }
            proof {
                assert(next@ =~= layer_eval(self.lv()[k as int], prev@));
            }
            prev = next;
            k += 1;
        }
        prev
    }

    /// Flattens every parameter into the ribbon: all weight vectors
    /// (layer-major, unit-major, each in its own order), then all biases in
    /// the same order. Its length is the total weight count plus the unit
    /// count.
    pub fn get_wb(&self) -> (r: Vec<i64>)
        ensures
            r@ == ribbon_of(self.lv()),
            r@.len() == w_count(self.lv()) + unit_count(self.lv()),
    {
        proof {
            lemma_layers_dv(self.layers);
        }
        let mut wres: Vec<i64> = Vec::new();
        let mut bres: Vec<i64> = Vec::new();
        let mut k: usize = 0;
        while k < self.layers.len()
            invariant
                k <= self.layers@.len(),
                self.lv().len() == self.layers@.len(),
                forall|kk: int|
                    0 <= kk < self.layers@.len() ==> #[trigger] self.lv()[kk].len()
                        == self.layers@[kk]@.len(),
                forall|kk: int, j: int|
                    0 <= kk < self.layers@.len() && 0 <= j < self.layers@[kk]@.len()
                        ==> #[trigger] self.lv()[kk][j] == self.layers@[kk]@[j]@,
                wres@ == all_ws(self.lv().take(k as int)),
                bres@ == all_bs(self.lv().take(k as int)),
            decreases self.layers@.len() - k,
        {
            let layer = &self.layers[k];
            let mut j: usize = 0;
            while j < layer.len()
                invariant
                    k < self.layers@.len(),
                    self.lv().len() == self.layers@.len(),
                    layer == self.layers@[k as int],
                    self.lv()[k as int].len() == layer@.len(),
                    forall|jj: int|
                        0 <= jj < layer@.len() ==> #[trigger] self.lv()[k as int][jj]
                            == layer@[jj]@,
                    j <= layer@.len(),
                    wres@ == all_ws(self.lv().take(k as int)) + layer_ws(
                        self.lv()[k as int].take(j as int),
                    ),
                    bres@ == all_bs(self.lv().take(k as int)) + layer_bs(
                        self.lv()[k as int].take(j as int),
                    ),
                decreases layer@.len() - j,
            {
                let mut wj = layer[j].weights();
                wres.append(&mut wj);
                bres.push(layer[j].bias());
                proof {
                    let lay = self.lv()[k as int];
                    assert(lay.take(j + 1).drop_last() =~= lay.take(j as int));
                    assert(lay.take(j + 1).last() == lay[j as int]);
                }
                j += 1;
            }
            proof {
                let l = self.lv();
                assert(l[k as int].take(layer@.len() as int) =~= l[k as int]);
                assert(l.take(k + 1).drop_last() =~= l.take(k as int));
                assert(l.take(k + 1).last() == l[k as int]);
            }
            k += 1;
        }
        proof {
            assert(self.lv().take(self.layers@.len() as int) =~= self.lv());
            lemma_ribbon_len(self.lv());
        }
        let mut r = wres;
        let mut bres = bres;
        r.append(&mut bres);
        r
    }
}

impl Model {
    /// Writes a ribbon's parameters back into the network: consumption
    /// proceeds from the ribbon's tail, in two full passes over layers and
    /// units in reverse order — all biases first, then, on what remains,
    /// all weights. Entries before the consumed tail are ignored.
    pub fn update_wb(&mut self, v: &Vec<i64>)
        requires
            old(self).nodes_wf(),
            v@.len() >= w_count(old(self).lv()) + unit_count(old(self).lv()),
        ensures
            final(self).layers.deep_view() == update_spec(old(self).lv(), v@),
            final(self).nodes_wf(),
            final(self).obs == old(self).obs,
            final(self).inputs == old(self).inputs,
            final(self).alpha == old(self).alpha,
            final(self).cst == old(self).cst,
    {
        let ghost l0 = self.layers@;
        let ghost dv0 = self.layers.deep_view();
        let ghost vl = v@.len() as int;
        let ghost tw = w_count(dv0) as int;
        let ghost tb = unit_count(dv0) as int;
        let ghost base = vl - tw - tb;
        proof {
            lemma_layers_dv(self.layers);
            assert(dv0.take(dv0.len() as int) =~= dv0);
        }
        let mut z = copy_scalars(v);
        proof {
            assert(z@ =~= v@.subrange(0, vl - tb + unit_count(dv0.take(l0.len() as int))));
        }
        // Pass 1: biases, reverse layer order, reverse unit order.
        let mut k: usize = self.layers.len();
        while k > 0
            invariant
                k <= l0.len(),
                self.layers@.len() == l0.len(),
                dv0.len() == l0.len(),
                vl == v@.len() as int,
                tw == w_count(dv0) as int,
                tb == unit_count(dv0) as int,
                vl >= tw + tb,
                forall|t: int| 0 <= t < l0.len() ==> #[trigger] dv0[t].len() == l0[t]@.len(),
                forall|t: int, j: int|
                    0 <= t < l0.len() && 0 <= j < l0[t]@.len() ==> #[trigger] dv0[t][j]
                        == l0[t]@[j]@,
                forall|t: int, j: int|
                    0 <= t < l0.len() && 0 <= j < l0[t]@.len()
                        ==> (#[trigger] l0[t]@[j]).wf(),
                forall|t: int| 0 <= t < k ==> #[trigger] self.layers@[t] == l0[t],
                forall|t: int, j: int|
                    0 <= t < l0.len() && 0 <= j < l0[t]@.len()
                        ==> (#[trigger] self.layers@[t]@[j]).wf(),
                forall|t: int|
                    k <= t < l0.len() ==> #[trigger] self.layers@[t]@.len() == l0[t]@.len(),
                forall|t: int, j: int|
                    #![trigger self.layers@[t]@[j]]
                    k <= t < l0.len() && 0 <= j < l0[t]@.len() ==> {
                        &&& self.layers@[t]@[j]@.kind == dv0[t][j].kind
                        &&& self.layers@[t]@[j]@.w == dv0[t][j].w
                        &&& self.layers@[t]@[j]@.b == v@[vl - tb + unit_count(dv0.take(t)) + j]
                        &&& self.layers@[t]@[j].needed_spec() == l0[t]@[j].needed_spec()
                        &&& self.layers@[t]@[j].wf()
                    },
                z@ == v@.subrange(0, vl - tb + unit_count(dv0.take(k as int))),
                self.obs == old(self).obs,
                self.inputs == old(self).inputs,
                self.alpha == old(self).alpha,
                self.cst == old(self).cst,
            decreases k,
        {
            k -= 1;
            proof {
                lemma_counts_take(dv0, k as int);
                lemma_counts_take_le(dv0, k as int);
                lemma_counts_take_le(dv0, k as int + 1);
            }
            let layer = vec_index_mut(&mut self.layers, k);
            z = layer_take_bs(layer, z);
            proof {
                assert(z@ =~= v@.subrange(0, vl - tb + unit_count(dv0.take(k as int))));
            }
        }
        proof {
            assert(dv0.take(0) =~= Seq::<Seq<NodeV>>::empty());
            assert(z@ =~= v@.subrange(0, vl - tb));
        }
        // Pass 2: weights, on what remains, same reverse order.
        let mut k: usize = self.layers.len();
        while k > 0
            invariant
                k <= l0.len(),
                self.layers@.len() == l0.len(),
                dv0.len() == l0.len(),
                vl == v@.len() as int,
                tw == w_count(dv0) as int,
                tb == unit_count(dv0) as int,
                base == vl - tw - tb,
                vl >= tw + tb,
                forall|t: int| 0 <= t < l0.len() ==> #[trigger] dv0[t].len() == l0[t]@.len(),
                forall|t: int, j: int|
                    0 <= t < l0.len() && 0 <= j < l0[t]@.len() ==> #[trigger] dv0[t][j]
                        == l0[t]@[j]@,
                forall|t: int, j: int|
                    0 <= t < l0.len() && 0 <= j < l0[t]@.len()
                        ==> (#[trigger] l0[t]@[j]).wf(),
                forall|t: int|
                    0 <= t < l0.len() ==> #[trigger] self.layers@[t]@.len() == l0[t]@.len(),
                forall|t: int, j: int|
                    0 <= t < l0.len() && 0 <= j < l0[t]@.len()
                        ==> (#[trigger] self.layers@[t]@[j]).wf(),
                forall|t: int, j: int|
                    #![trigger self.layers@[t]@[j]]
                    0 <= t < l0.len() && 0 <= j < l0[t]@.len() ==> {
                        &&& self.layers@[t]@[j]@.kind == dv0[t][j].kind
                        &&& self.layers@[t]@[j]@.b == v@[vl - tb + unit_count(dv0.take(t)) + j]
                        &&& self.layers@[t]@[j].needed_spec() == l0[t]@[j].needed_spec()
                    },
                forall|t: int, j: int|
                    #![trigger self.layers@[t]@[j]@.w]
                    k <= t < l0.len() && 0 <= j < l0[t]@.len()
                        ==> self.layers@[t]@[j]@.w == v@.subrange(
                        base + w_count(dv0.take(t)) + layer_w_count(dv0[t].take(j)),
                        base + w_count(dv0.take(t)) + layer_w_count(dv0[t].take(j))
                            + dv0[t][j].w.len(),
                    ),
                forall|t: int, j: int|
                    #![trigger self.layers@[t]@[j]@.w]
                    0 <= t < k && 0 <= j < l0[t]@.len() ==> self.layers@[t]@[j]@.w
                        == dv0[t][j].w,
                z@ == v@.subrange(0, base + w_count(dv0.take(k as int))),
                self.obs == old(self).obs,
                self.inputs == old(self).inputs,
                self.alpha == old(self).alpha,
                self.cst == old(self).cst,
            decreases k,
        {
            k -= 1;
            proof {
                lemma_counts_take(dv0, k as int);
                lemma_counts_take_le(dv0, k as int);
                lemma_counts_take_le(dv0, k as int + 1);
            }
            let ghost zpre = z@;
            let ghost cur = self.layers@[k as int].deep_view();
            proof {
                lemma_layer_dv(self.layers@[k as int]);
                assert(cur.len() == dv0[k as int].len());
                assert forall|j: int| 0 <= j < cur.len() implies #[trigger] cur[j].w.len()
                    == dv0[k as int][j].w.len() by {
                    assert(cur[j] == self.layers@[k as int]@[j]@);
                }
                lemma_lwc_congruent(cur, dv0[k as int]);
            }
            let layer = vec_index_mut(&mut self.layers, k);
            z = layer_take_ws(layer, z);
            proof {
                assert(z@ =~= v@.subrange(0, base + w_count(dv0.take(k as int))));
                assert forall|j: int| 0 <= j < l0[k as int]@.len() implies {
                    &&& self.layers@[k as int]@[j]@.w == v@.subrange(
                        base + w_count(dv0.take(k as int)) + layer_w_count(
                            dv0[k as int].take(j),
                        ),
                        base + w_count(dv0.take(k as int)) + layer_w_count(
                            dv0[k as int].take(j),
                        ) + dv0[k as int][j].w.len(),
                    )
                    &&& self.layers@[k as int]@[j].wf()
                } by {
                    assert(self.layers@[k as int]@[j] == final(layer)@[j]);
                    assert(cur.take(j).len() == dv0[k as int].take(j).len());
                    assert forall|i: int| 0 <= i < j implies #[trigger] cur.take(j)[i].w.len()
                        == dv0[k as int].take(j)[i].w.len() by {
                        assert(cur.take(j)[i] == cur[i]);
                    }
                    lemma_lwc_congruent(cur.take(j), dv0[k as int].take(j));
                    lemma_lwc_take(dv0[k as int], j);
                    lemma_lwc_take_le(dv0[k as int], j + 1);
                    assert(zpre.subrange(
                        zpre.len() - layer_w_count(cur) + layer_w_count(cur.take(j)),
                        zpre.len() - layer_w_count(cur) + layer_w_count(cur.take(j))
                            + dv0[k as int][j].w.len(),
                    ) =~= v@.subrange(
                        base + w_count(dv0.take(k as int)) + layer_w_count(
                            dv0[k as int].take(j),
                        ),
                        base + w_count(dv0.take(k as int)) + layer_w_count(
                            dv0[k as int].take(j),
                        ) + dv0[k as int][j].w.len(),
                    ));
                }
            }
        }
        proof {
            assert(dv0.take(0) =~= Seq::<Seq<NodeV>>::empty());
            lemma_layers_dv(self.layers);
            let lf = self.layers.deep_view();
            let u = update_spec(dv0, v@);
            assert forall|t: int| 0 <= t < l0.len() implies lf[t] =~= u[t] by {
                lemma_counts_take_le(dv0, t);
                lemma_counts_take(dv0, t);
                lemma_counts_take_le(dv0, t + 1);
                assert forall|j: int| 0 <= j < l0[t]@.len() implies lf[t][j] =~= u[t][j] by {
                    lemma_lwc_take(dv0[t], j);
                    lemma_lwc_take_le(dv0[t], j + 1);
                    assert(u[t][j].w =~= v@.subrange(
                        base + w_count(dv0.take(t)) + layer_w_count(dv0[t].take(j)),
                        base + w_count(dv0.take(t)) + layer_w_count(dv0[t].take(j))
                            + dv0[t][j].w.len(),
                    ));
                    assert(lf[t][j] == self.layers@[t]@[j]@);
                }
            }
            assert(lf =~= u);
        }
    }
}

/// Equal unit counts and weight lengths give equal weight counts.
pub proof fn lemma_lwc_congruent(s1: Seq<NodeV>, s2: Seq<NodeV>)
    requires
        s1.len() == s2.len(),
        forall|i: int| 0 <= i < s1.len() ==> #[trigger] s1[i].w.len() == s2[i].w.len(),
    ensures
        layer_w_count(s1) == layer_w_count(s2),
    decreases s1.len(),
{
    if s1.len() > 0 {
        lemma_lwc_congruent(s1.drop_last(), s2.drop_last());
    }
}

/// One layer rebuilt from a weight block and a bias block: unit `j` keeps
/// its variant, takes the `j`th slice of the weight block (slice widths
/// follow the units' own weight counts) and the `j`th bias.
pub open spec fn update_layer_v(layer: Seq<NodeV>, ws: Seq<i64>, bs: Seq<i64>) -> Seq<NodeV>
    recommends
        ws.len() == layer_w_count(layer),
        bs.len() == layer.len(),
{
    Seq::new(
        layer.len(),
        |j: int|
            NodeV {
                kind: layer[j].kind,
                w: ws.subrange(
                    layer_w_count(layer.take(j)) as int,
                    (layer_w_count(layer.take(j)) + layer[j].w.len()) as int,
                ),
                b: bs[j],
            },
    )
}

/// The network rebuilt from the tail of a ribbon `v`: the last
/// `unit_count` entries are the biases (layer-major, unit-major), the
/// `w_count` entries before them are the weights in the same order;
/// entries before those are ignored.
pub open spec fn update_spec(l: Seq<Seq<NodeV>>, v: Seq<i64>) -> Seq<Seq<NodeV>>
    recommends
        v.len() >= w_count(l) + unit_count(l),
{
    let vl = v.len() as int;
    let tw = w_count(l) as int;
    let tb = unit_count(l) as int;
    let base = vl - tw - tb;
    Seq::new(
        l.len(),
        |k: int|
            update_layer_v(
                l[k],
                v.subrange(
                    base + w_count(l.take(k)),
                    base + w_count(l.take(k)) + layer_w_count(l[k]),
                ),
                v.subrange(
                    vl - tb + unit_count(l.take(k)),
                    vl - tb + unit_count(l.take(k)) + l[k].len(),
                ),
            ),
    )
}

fn vec_index_mut<T>(v: &mut Vec<T>, i: usize) -> (element: &mut T)
    requires
        i < old(v).len(),
    ensures
        *element == old(v)@[i as int],
        final(v)@ == old(v)@.update(i as int, *final(element)),
{
    &mut v[i]
}

/// Strips one bias per unit from the tail of `z`, walking the layer's
/// units in reverse; the last unit takes the last entry.
fn layer_take_bs(layer: &mut Vec<Node>, z: Vec<i64>) -> (r: Vec<i64>)
    requires
        z@.len() >= old(layer)@.len(),
    ensures
        r@ == z@.subrange(0, z@.len() - old(layer)@.len()),
        final(layer)@.len() == old(layer)@.len(),
        forall|j: int|
            #![trigger final(layer)@[j]]
            0 <= j < old(layer)@.len() ==> {
                &&& final(layer)@[j]@.kind == old(layer)@[j]@.kind
                &&& final(layer)@[j]@.w == old(layer)@[j]@.w
                &&& final(layer)@[j]@.b == z@[z@.len() - old(layer)@.len() + j]
                &&& final(layer)@[j].needed_spec() == old(layer)@[j].needed_spec()
                &&& (final(layer)@[j].wf() <==> old(layer)@[j].wf())
            },
{
    let ghost l0 = layer@;
    let ghost z0 = z@;
    let mut z = z;
    let mut j: usize = layer.len();
    while j > 0
        invariant
            j <= l0.len(),
            layer@.len() == l0.len(),
            z0.len() >= l0.len(),
            z@ == z0.subrange(0, z0.len() - (l0.len() - j)),
            forall|t: int| 0 <= t < j ==> #[trigger] layer@[t] == l0[t],
            forall|t: int|
                #![trigger layer@[t]]
                j <= t < l0.len() ==> {
                    &&& layer@[t]@.kind == l0[t]@.kind
                    &&& layer@[t]@.w == l0[t]@.w
                    &&& layer@[t]@.b == z0[z0.len() - l0.len() + t]
                    &&& layer@[t].needed_spec() == l0[t].needed_spec()
                    &&& (layer@[t].wf() <==> l0[t].wf())
                },
        decreases j,
    {
        j -= 1;
        let node = vec_index_mut(layer, j);
        z = node.take_b(z);
        proof {
            assert(z@ =~= z0.subrange(0, z0.len() - (l0.len() - j)));
        }
    }
    z
}

/// Strips each unit's weights from the tail of `z`, walking the layer's
/// units in reverse; the last unit takes the last entries.
fn layer_take_ws(layer: &mut Vec<Node>, z: Vec<i64>) -> (r: Vec<i64>)
    requires
        forall|j: int| 0 <= j < old(layer)@.len() ==> (#[trigger] old(layer)@[j]).wf(),
        z@.len() >= layer_w_count(old(layer).deep_view()),
    ensures
        r@ == z@.subrange(0, z@.len() - layer_w_count(old(layer).deep_view())),
        final(layer)@.len() == old(layer)@.len(),
        forall|j: int|
            #![trigger final(layer)@[j]]
            0 <= j < old(layer)@.len() ==> {
                &&& final(layer)@[j]@.kind == old(layer)@[j]@.kind
                &&& final(layer)@[j]@.b == old(layer)@[j]@.b
                &&& final(layer)@[j]@.w == z@.subrange(
                    z@.len() - layer_w_count(old(layer).deep_view()) + layer_w_count(
                        old(layer).deep_view().take(j),
                    ),
                    z@.len() - layer_w_count(old(layer).deep_view()) + layer_w_count(
                        old(layer).deep_view().take(j),
                    ) + old(layer)@[j]@.w.len(),
                )
                &&& final(layer)@[j].needed_spec() == old(layer)@[j].needed_spec()
                &&& final(layer)@[j].wf()
            },
{
    let ghost l0 = layer@;
    let ghost dv0 = layer.deep_view();
    let ghost z0 = z@;
    proof {
        lemma_layer_dv(*layer);
        lemma_lwc_take_le(dv0, 0);
        assert(dv0.take(dv0.len() as int) =~= dv0);
    }
    let mut z = z;
    let mut j: usize = layer.len();
    while j > 0
        invariant
            j <= l0.len(),
            layer@.len() == l0.len(),
            dv0.len() == l0.len(),
            forall|t: int| 0 <= t < l0.len() ==> #[trigger] dv0[t] == l0[t]@,
            forall|t: int| 0 <= t < l0.len() ==> (#[trigger] l0[t]).wf(),
            z0.len() >= layer_w_count(dv0),
            z@ == z0.subrange(
                0,
                z0.len() - layer_w_count(dv0) + layer_w_count(dv0.take(j as int)),
            ),
            forall|t: int| 0 <= t < j ==> #[trigger] layer@[t] == l0[t],
            forall|t: int|
                #![trigger layer@[t]]
                j <= t < l0.len() ==> {
                    &&& layer@[t]@.kind == l0[t]@.kind
                    &&& layer@[t]@.b == l0[t]@.b
                    &&& layer@[t]@.w == z0.subrange(
                        z0.len() - layer_w_count(dv0) + layer_w_count(dv0.take(t)),
                        z0.len() - layer_w_count(dv0) + layer_w_count(dv0.take(t))
                            + l0[t]@.w.len(),
                    )
                    &&& layer@[t].needed_spec() == l0[t].needed_spec()
                    &&& layer@[t].wf()
                },
        decreases j,
    {
        j -= 1;
        proof {
            lemma_lwc_take(dv0, j as int);
            lemma_lwc_take_le(dv0, j + 1);
        }
        let node = vec_index_mut(layer, j);
        z = node.take_w(z);
        proof {
            assert(z@ =~= z0.subrange(
                0,
                z0.len() - layer_w_count(dv0) + layer_w_count(dv0.take(j as int)),
            ));
            assert(layer@[j as int]@.w =~= z0.subrange(
                z0.len() - layer_w_count(dv0) + layer_w_count(dv0.take(j as int)),
                z0.len() - layer_w_count(dv0) + layer_w_count(dv0.take(j as int))
                    + l0[j as int]@.w.len(),
            ));
        }
    }
    proof {
        assert(dv0.take(0) =~= Seq::<NodeV>::empty());
        assert(z@ =~= z0.subrange(0, z0.len() - layer_w_count(dv0)));
    }
    z
}

pub(crate) proof fn lemma_layer_dv(v: Vec<Node>)
    ensures
        v.deep_view().len() == v@.len(),
        forall|j: int| 0 <= j < v@.len() ==> #[trigger] v.deep_view()[j] == v@[j]@,
{
}

/// Adding one unit to a prefix adds its weight count.
pub proof fn lemma_lwc_take(layer: Seq<NodeV>, j: int)
    requires
        0 <= j < layer.len(),
    ensures
        layer_w_count(layer.take(j + 1)) == layer_w_count(layer.take(j)) + layer[j].w.len(),
{
    assert(layer.take(j + 1).drop_last() =~= layer.take(j));
    assert(layer.take(j + 1).last() == layer[j]);
}

/// A prefix never holds more weights than the whole layer.
pub proof fn lemma_lwc_take_le(layer: Seq<NodeV>, j: int)
    requires
        0 <= j <= layer.len(),
    ensures
        layer_w_count(layer.take(j)) <= layer_w_count(layer),
    decreases layer.len() - j,
{
    if j == layer.len() {
        assert(layer.take(j) =~= layer);
    } else {
        lemma_lwc_take(layer, j);
        lemma_lwc_take_le(layer, j + 1);
    }
}

/// Adding one layer to a prefix adds its weight and unit counts.
pub proof fn lemma_counts_take(l: Seq<Seq<NodeV>>, k: int)
    requires
        0 <= k < l.len(),
    ensures
        w_count(l.take(k + 1)) == w_count(l.take(k)) + layer_w_count(l[k]),
        unit_count(l.take(k + 1)) == unit_count(l.take(k)) + l[k].len(),
{
    assert(l.take(k + 1).drop_last() =~= l.take(k));
    assert(l.take(k + 1).last() == l[k]);
}

/// A prefix never holds more weights or units than the whole network.
pub proof fn lemma_counts_take_le(l: Seq<Seq<NodeV>>, k: int)
    requires
        0 <= k <= l.len(),
    ensures
        w_count(l.take(k)) <= w_count(l),
        unit_count(l.take(k)) <= unit_count(l),
    decreases l.len() - k,
{
    if k == l.len() {
        assert(l.take(k) =~= l);
    } else {
        lemma_counts_take(l, k);
        lemma_counts_take_le(l, k + 1);
    }
}

/// The concatenated weights of a layer are as many as its units hold.
pub proof fn lemma_layer_ws_len(layer: Seq<NodeV>)
    ensures
        layer_ws(layer).len() == layer_w_count(layer),
        layer_bs(layer).len() == layer.len(),
    decreases layer.len(),
{
    if layer.len() > 0 {
        lemma_layer_ws_len(layer.drop_last());
    }
}

/// The ribbon holds one entry per weight and one per unit.
pub proof fn lemma_ribbon_len(l: Seq<Seq<NodeV>>)
    ensures
        all_ws(l).len() == w_count(l),
        all_bs(l).len() == unit_count(l),
        ribbon_of(l).len() == w_count(l) + unit_count(l),
    decreases l.len(),
{
    if l.len() > 0 {
        lemma_ribbon_len(l.drop_last());
        lemma_layer_ws_len(l.last());
    }
}

/// Unit `j`'s weights sit at their prefix-sum offset in the layer's
/// concatenated weights.
pub proof fn lemma_layer_ws_slice(layer: Seq<NodeV>, j: int)
    requires
        0 <= j < layer.len(),
    ensures
        layer_ws(layer).subrange(
            layer_w_count(layer.take(j)) as int,
            (layer_w_count(layer.take(j)) + layer[j].w.len()) as int,
        ) == layer[j].w,
    decreases layer.len(),
{
    lemma_layer_ws_len(layer);
    lemma_lwc_take(layer, j);
    lemma_lwc_take_le(layer, j + 1);
    let a = layer_w_count(layer.take(j)) as int;
    let b = (layer_w_count(layer.take(j)) + layer[j].w.len()) as int;
    if j == layer.len() - 1 {
        assert(layer.take(j) =~= layer.drop_last());
        lemma_layer_ws_len(layer.drop_last());
        assert(layer_ws(layer).subrange(a, b) =~= layer[j].w);
    } else {
        lemma_layer_ws_slice(layer.drop_last(), j);
        assert(layer.drop_last().take(j) =~= layer.take(j));
        assert(layer.take(j + 1) =~= layer.drop_last().take(j + 1));
        lemma_lwc_take(layer.drop_last(), j);
        lemma_lwc_take_le(layer.drop_last(), j + 1);
        lemma_layer_ws_len(layer.drop_last());
        assert(layer_ws(layer).subrange(a, b) =~= layer_ws(layer.drop_last()).subrange(a, b));
    }
}

/// Unit `j`'s bias sits at index `j` of the layer's bias block.
pub proof fn lemma_layer_bs_index(layer: Seq<NodeV>, j: int)
    requires
        0 <= j < layer.len(),
    ensures
        layer_bs(layer)[j] == layer[j].b,
    decreases layer.len(),
{
    lemma_layer_ws_len(layer);
    if j < layer.len() - 1 {
        lemma_layer_bs_index(layer.drop_last(), j);
    } else {
        lemma_layer_ws_len(layer.drop_last());
    }
}

/// Layer `k`'s weight block sits at its prefix-sum offset in the
/// network's concatenated weights.
pub proof fn lemma_all_ws_slice(l: Seq<Seq<NodeV>>, k: int)
    requires
        0 <= k < l.len(),
    ensures
        all_ws(l).subrange(
            w_count(l.take(k)) as int,
            (w_count(l.take(k)) + layer_w_count(l[k])) as int,
        ) == layer_ws(l[k]),
    decreases l.len(),
{
    lemma_ribbon_len(l);
    lemma_counts_take(l, k);
    lemma_counts_take_le(l, k + 1);
    let a = w_count(l.take(k)) as int;
    let b = (w_count(l.take(k)) + layer_w_count(l[k])) as int;
    lemma_layer_ws_len(l[k]);
    if k == l.len() - 1 {
        assert(l.take(k) =~= l.drop_last());
        lemma_ribbon_len(l.drop_last());
        assert(all_ws(l).subrange(a, b) =~= layer_ws(l[k]));
    } else {
        lemma_all_ws_slice(l.drop_last(), k);
        assert(l.drop_last().take(k) =~= l.take(k));
        assert(l.take(k + 1) =~= l.drop_last().take(k + 1));
        lemma_counts_take(l.drop_last(), k);
        lemma_counts_take_le(l.drop_last(), k + 1);
        lemma_ribbon_len(l.drop_last());
        assert(all_ws(l).subrange(a, b) =~= all_ws(l.drop_last()).subrange(a, b));
    }
}

/// Layer `k`'s bias block sits at its prefix-sum offset in the network's
/// concatenated biases.
pub proof fn lemma_all_bs_slice(l: Seq<Seq<NodeV>>, k: int)
    requires
        0 <= k < l.len(),
    ensures
        all_bs(l).subrange(
            unit_count(l.take(k)) as int,
            (unit_count(l.take(k)) + l[k].len()) as int,
        ) == layer_bs(l[k]),
    decreases l.len(),
{
    lemma_ribbon_len(l);
    lemma_counts_take(l, k);
    lemma_counts_take_le(l, k + 1);
    let a = unit_count(l.take(k)) as int;
    let b = (unit_count(l.take(k)) + l[k].len()) as int;
    lemma_layer_ws_len(l[k]);
    if k == l.len() - 1 {
        assert(l.take(k) =~= l.drop_last());
        lemma_ribbon_len(l.drop_last());
        assert(all_bs(l).subrange(a, b) =~= layer_bs(l[k]));
    } else {
        lemma_all_bs_slice(l.drop_last(), k);
        assert(l.drop_last().take(k) =~= l.take(k));
        assert(l.take(k + 1) =~= l.drop_last().take(k + 1));
        lemma_counts_take(l.drop_last(), k);
        lemma_counts_take_le(l.drop_last(), k + 1);
        lemma_ribbon_len(l.drop_last());
        assert(all_bs(l).subrange(a, b) =~= all_bs(l.drop_last()).subrange(a, b));
    }
}

/// Round trip: writing a network's own ribbon back into it changes
/// nothing — every unit keeps its variant, weights and bias.
pub proof fn lemma_ribbon_round_trip(l: Seq<Seq<NodeV>>)
    ensures
        update_spec(l, ribbon_of(l)) == l,
{
    lemma_ribbon_len(l);
    let v = ribbon_of(l);
    let tw = w_count(l) as int;
    let tb = unit_count(l) as int;
    assert forall|k: int| 0 <= k < l.len() implies update_spec(l, v)[k] =~= l[k] by {
        lemma_counts_take(l, k);
        lemma_counts_take_le(l, k);
        lemma_counts_take_le(l, k + 1);
        lemma_layer_ws_len(l[k]);
        lemma_all_ws_slice(l, k);
        lemma_all_bs_slice(l, k);
        let ws = v.subrange(
            w_count(l.take(k)) as int,
            (w_count(l.take(k)) + layer_w_count(l[k])) as int,
        );
        let bs = v.subrange(
            tw + unit_count(l.take(k)),
            tw + unit_count(l.take(k)) + l[k].len(),
        );
        assert(ws =~= all_ws(l).subrange(
            w_count(l.take(k)) as int,
            (w_count(l.take(k)) + layer_w_count(l[k])) as int,
        ));
        assert(bs =~= all_bs(l).subrange(
            unit_count(l.take(k)) as int,
            (unit_count(l.take(k)) + l[k].len()) as int,
        ));
        assert forall|j: int| 0 <= j < l[k].len() implies update_spec(l, v)[k][j] =~= l[k][j] by {
            lemma_lwc_take(l[k], j);
            lemma_lwc_take_le(l[k], j + 1);
            lemma_layer_ws_slice(l[k], j);
            lemma_layer_bs_index(l[k], j);
            assert(update_spec(l, v)[k][j].w =~= layer_ws(l[k]).subrange(
                layer_w_count(l[k].take(j)) as int,
                (layer_w_count(l[k].take(j)) + l[k][j].w.len()) as int,
            ));
        }
    }
    assert(update_spec(l, v) =~= l);
}

/// Two networks of the same shape: equal layer widths, weight counts and
/// unit variants everywhere.
pub open spec fn same_shape(s1: Seq<Seq<NodeV>>, s2: Seq<Seq<NodeV>>) -> bool {
    &&& s1.len() == s2.len()
    &&& forall|k: int| 0 <= k < s1.len() ==> #[trigger] s1[k].len() == s2[k].len()
    &&& forall|k: int, j: int|
        #![trigger s1[k][j]]
        0 <= k < s1.len() && 0 <= j < s1[k].len() ==> s1[k][j].w.len() == s2[k][j].w.len()
            && s1[k][j].kind == s2[k][j].kind
}

/// Writing a ribbon back never changes the network's shape.
pub proof fn lemma_update_shape(l: Seq<Seq<NodeV>>, v: Seq<i64>)
    requires
        v.len() >= w_count(l) + unit_count(l),
    ensures
        same_shape(update_spec(l, v), l),
{
    let u = update_spec(l, v);
    assert forall|k: int, j: int|
        #![trigger u[k][j]]
        0 <= k < u.len() && 0 <= j < u[k].len() implies u[k][j].w.len() == l[k][j].w.len()
        && u[k][j].kind == l[k][j].kind by {
        lemma_counts_take(l, k);
        lemma_counts_take_le(l, k);
        lemma_counts_take_le(l, k + 1);
        lemma_lwc_take(l[k], j);
        lemma_lwc_take_le(l[k], j + 1);
    }
}

/// Networks of the same shape have the same weight and unit counts.
pub proof fn lemma_counts_congruent(s1: Seq<Seq<NodeV>>, s2: Seq<Seq<NodeV>>)
    requires
        same_shape(s1, s2),
    ensures
        w_count(s1) == w_count(s2),
        unit_count(s1) == unit_count(s2),
    decreases s1.len(),
{
    if s1.len() > 0 {
        assert(same_shape(s1.drop_last(), s2.drop_last()));
        lemma_counts_congruent(s1.drop_last(), s2.drop_last());
        lemma_lwc_congruent(s1.last(), s2.last());
    }
}

/// Writing one ribbon into two networks of the same shape gives the same
/// result: the ribbon alone determines every weight and bias.
pub proof fn lemma_update_congruent(s1: Seq<Seq<NodeV>>, s2: Seq<Seq<NodeV>>, v: Seq<i64>)
    requires
        same_shape(s1, s2),
        v.len() >= w_count(s1) + unit_count(s1),
    ensures
        update_spec(s1, v) == update_spec(s2, v),
{
    lemma_counts_congruent(s1, s2);
    let u1 = update_spec(s1, v);
    let u2 = update_spec(s2, v);
    assert forall|k: int| 0 <= k < s1.len() implies u1[k] =~= u2[k] by {
        assert(same_shape(s1.take(k), s2.take(k)));
        lemma_counts_congruent(s1.take(k), s2.take(k));
        assert forall|i: int| 0 <= i < s1[k].len() implies #[trigger] s1[k][i].w.len()
            == s2[k][i].w.len() by {
            assert(s1[k][i].w.len() == s2[k][i].w.len() && s1[k][i].kind == s2[k][i].kind);
        }
        lemma_lwc_congruent(s1[k], s2[k]);
        assert forall|j: int| 0 <= j < s1[k].len() implies u1[k][j] =~= u2[k][j] by {
            assert(s1[k].take(j).len() == s2[k].take(j).len());
            assert forall|i: int| 0 <= i < j implies #[trigger] s1[k].take(j)[i].w.len()
                == s2[k].take(j)[i].w.len() by {
                assert(s1[k].take(j)[i] == s1[k][i]);
            }
            lemma_lwc_congruent(s1[k].take(j), s2[k].take(j));
        }
    }
    assert(u1 =~= u2);
}

/// Same shape carries the width invariant across.
pub proof fn lemma_arch_transfer(s1: Seq<Seq<NodeV>>, s2: Seq<Seq<NodeV>>, inputs: int)
    requires
        same_shape(s1, s2),
        arch_ok(s2, inputs),
    ensures
        arch_ok(s1, inputs),
{
    assert forall|k: int, j: int|
        0 <= k < s1.len() && 0 <= j < s1[k].len() implies #[trigger] s1[k][j].w.len()
        == width_in(s1, inputs, k) by {
        assert(s2[k][j].w.len() == width_in(s2, inputs, k));
    }
}

/// The network's predictions on each input of a batch.
pub open spec fn preds_spec(l: Seq<Seq<NodeV>>, ins: Seq<Seq<i64>>) -> Seq<Seq<i64>> {
    Seq::new(ins.len(), |i: int| forward_spec(l, ins[i]))
}

/// The loss on a batch: the cost function applied to every prediction and
/// its target.
pub open spec fn loss_spec(
    l: Seq<Seq<NodeV>>,
    c: CostFn,
    ins: Seq<Seq<i64>>,
    outs: Seq<Seq<i64>>,
) -> int {
    cost_spec(c, preds_spec(l, ins), outs)
}

/// The shape a batch must have for the loss to be defined on this
/// network: at least one example, inputs of the declared width, a target
/// entry for every output entry, and a non-empty output.
pub open spec fn loss_batch_ok(
    l: Seq<Seq<NodeV>>,
    inputs: int,
    ins: Seq<Seq<i64>>,
    outs: Seq<Seq<i64>>,
) -> bool {
    &&& ins.len() > 0
    &&& outs.len() >= ins.len()
    &&& forall|i: int| 0 <= i < ins.len() ==> #[trigger] ins[i].len() == inputs
    &&& forall|i: int| 0 <= i < ins.len() ==> #[trigger] outs[i].len() >= out_width(l, inputs)
    &&& out_width(l, inputs) > 0
}

/// The network's output width on inputs of the declared width.
pub proof fn lemma_forward_len(l: Seq<Seq<NodeV>>, xs: Seq<i64>, inputs: int)
    requires
        xs.len() == inputs,
    ensures
        forward_spec(l, xs).len() == out_width(l, inputs),
{
}

/// A parameter ribbon with index `i` nudged up by the probe step.
pub open spec fn probe_plus(base: Seq<i64>, i: int) -> Seq<i64> {
    base.update(i, fx_add_spec(base[i] as int, H_STEP as int) as i64)
}

/// A parameter ribbon with index `i` nudged down by the probe step.
pub open spec fn probe_minus(base: Seq<i64>, i: int) -> Seq<i64> {
    base.update(i, fx_sub_spec(base[i] as int, H_STEP as int) as i64)
}

/// The central-difference gradient estimate for parameter `i`: the loss
/// with that parameter nudged up, minus the loss with it nudged down,
/// over twice the probe step.
pub open spec fn grad_at(
    l: Seq<Seq<NodeV>>,
    c: CostFn,
    ins: Seq<Seq<i64>>,
    outs: Seq<Seq<i64>>,
    i: int,
) -> int {
    let base = ribbon_of(l);
    let a = loss_spec(update_spec(l, probe_plus(base, i)), c, ins, outs);
    let b = loss_spec(update_spec(l, probe_minus(base, i)), c, ins, outs);
    fx_div_spec(fx_sub_spec(a, b), 2 * H_STEP)
}

/// The estimated gradient of the loss with respect to every parameter.
pub open spec fn grad_seq(
    l: Seq<Seq<NodeV>>,
    c: CostFn,
    ins: Seq<Seq<i64>>,
    outs: Seq<Seq<i64>>,
) -> Seq<i64> {
    Seq::new(w_count(l) + unit_count(l), |i: int| grad_at(l, c, ins, outs, i) as i64)
}

/// One gradient-descent step on the ribbon: every parameter moves against
/// its gradient component, scaled by the learning rate.
pub open spec fn step_ribbon(
    l: Seq<Seq<NodeV>>,
    alpha: i64,
    c: CostFn,
    ins: Seq<Seq<i64>>,
    outs: Seq<Seq<i64>>,
) -> Seq<i64> {
    let base = ribbon_of(l);
    Seq::new(
        base.len(),
        |i: int|
            fx_sub_spec(
                base[i] as int,
                fx_mul_spec(alpha as int, grad_at(l, c, ins, outs, i)),
            ) as i64,
    )
}

/// The network after one training step.
pub open spec fn step_spec(
    l: Seq<Seq<NodeV>>,
    alpha: i64,
    c: CostFn,
    ins: Seq<Seq<i64>>,
    outs: Seq<Seq<i64>>,
) -> Seq<Seq<NodeV>> {
    update_spec(l, step_ribbon(l, alpha, c, ins, outs))
}

/// The network after `n` training steps.
pub open spec fn train_spec(
    l: Seq<Seq<NodeV>>,
    alpha: i64,
    c: CostFn,
    ins: Seq<Seq<i64>>,
    outs: Seq<Seq<i64>>,
    n: nat,
) -> Seq<Seq<NodeV>>
    decreases n,
{
    if n == 0 {
        l
    } else {
        step_spec(train_spec(l, alpha, c, ins, outs, (n - 1) as nat), alpha, c, ins, outs)
    }
}

/// Copies a batch of vectors.
pub(crate) fn copy_rows(v: &Vec<Vec<i64>>) -> (r: Vec<Vec<i64>>)
    ensures
        r@.len() == v@.len(),
        forall|i: int| 0 <= i < v@.len() ==> #[trigger] r@[i]@ == v@[i]@,
{
    let mut r: Vec<Vec<i64>> = Vec::new();
    let mut i: usize = 0;
    while i < v.len()
        invariant
            i <= v@.len(),
            r@.len() == i,
            forall|t: int| 0 <= t < i ==> #[trigger] r@[t]@ == v@[t]@,
        decreases v@.len() - i,
    {
        r.push(copy_scalars(&v[i]));
        i += 1;
    }
    r
}

impl Model {
    /// The dataset fits this network: at least one example, inputs of the
    /// declared width, and a target entry for every output entry.
    pub open spec fn obs_ok(&self) -> bool {
        loss_batch_ok(
            self.lv(),
            self.inputs as int,
            self.obs.ord_in.deep_view(),
            self.obs.ord_out.deep_view(),
        )
    }

    /// The loss of the network on a batch: every input is run forward,
    /// and the cost function is applied to the predictions and targets.
    pub fn loss(&self, is: &Vec<Vec<i64>>, os: &Vec<Vec<i64>>) -> (r: i64)
        requires
            self.wf(),
            loss_batch_ok(self.lv(), self.inputs as int, is.deep_view(), os.deep_view()),
        ensures
            r as int == loss_spec(self.lv(), self.cst, is.deep_view(), os.deep_view()),
    {
        proof {
            lemma_rows_dv(*is);
            lemma_rows_dv(*os);
        }
        let mut preds: Vec<Vec<i64>> = Vec::new();
        let mut i: usize = 0;
        while i < is.len()
            invariant
                self.wf(),
                loss_batch_ok(self.lv(), self.inputs as int, is.deep_view(), os.deep_view()),
                is.deep_view().len() == is@.len(),
                forall|t: int| 0 <= t < is@.len() ==> #[trigger] is.deep_view()[t] == is@[t]@,
                i <= is@.len(),
                preds@.len() == i,
                forall|t: int|
                    0 <= t < i ==> #[trigger] preds@[t]@ == forward_spec(
                        self.lv(),
                        is.deep_view()[t],
                    ),
            decreases is@.len() - i,
        {
            proof {
                assert(is.deep_view()[i as int].len() == self.inputs);
            }
            preds.push(self.calc(&is[i]));
            i += 1;
        }
        let osc = copy_rows(os);
        proof {
            lemma_rows_dv(preds);
            lemma_rows_dv(osc);
            assert(preds.deep_view() =~= preds_spec(self.lv(), is.deep_view()));
            assert(osc.deep_view() =~= os.deep_view());
            assert forall|t: int| 0 <= t < preds.deep_view().len() implies #[trigger] preds.deep_view()[t].len()
                > 0 && osc.deep_view()[t].len() >= preds.deep_view()[t].len() by {
                assert(is.deep_view()[t].len() == self.inputs);
                lemma_forward_len(self.lv(), is.deep_view()[t], self.inputs as int);
                assert(os.deep_view()[t].len() >= out_width(self.lv(), self.inputs as int));
            }
        }
        self.cst.apply(preds, osc)
    }

    /// Estimates the loss gradient for every parameter by central
    /// differences: for each index the full-dataset loss is evaluated with
    /// that parameter nudged up and nudged down. The network's parameters
    /// are restored before returning.
    pub fn estimate_gradient(&mut self) -> (g: Vec<i64>)
        requires
            old(self).wf(),
            old(self).obs_ok(),
        ensures
            g@ == grad_seq(
                old(self).lv(),
                old(self).cst,
                old(self).obs.ord_in.deep_view(),
                old(self).obs.ord_out.deep_view(),
            ),
            final(self).lv() == old(self).lv(),
            final(self).wf(),
            final(self).obs == old(self).obs,
            final(self).inputs == old(self).inputs,
            final(self).alpha == old(self).alpha,
            final(self).cst == old(self).cst,
    {
        let ghost l0 = self.lv();
        let ghost ins = self.obs.ord_in.deep_view();
        let ghost outs = self.obs.ord_out.deep_view();
        let wbs = self.get_wb();
        proof {
            lemma_ribbon_len(l0);
        }
        let mut g: Vec<i64> = Vec::new();
        let mut i: usize = 0;
        while i < wbs.len()
            invariant
                i <= wbs@.len(),
                wbs@ == ribbon_of(l0),
                wbs@.len() == w_count(l0) + unit_count(l0),
                same_shape(self.lv(), l0),
                self.wf(),
                arch_ok(l0, self.inputs as int),
                self.obs == old(self).obs,
                self.inputs == old(self).inputs,
                self.alpha == old(self).alpha,
                self.cst == old(self).cst,
                old(self).obs_ok(),
                ins == self.obs.ord_in.deep_view(),
                outs == self.obs.ord_out.deep_view(),
                loss_batch_ok(l0, self.inputs as int, ins, outs),
                g@.len() == i,
                forall|t: int|
                    0 <= t < i ==> #[trigger] g@[t] == grad_at(
                        l0,
                        self.cst,
                        ins,
                        outs,
                        t,
                    ) as i64,
            decreases wbs@.len() - i,
        {
            proof {
                lemma_counts_congruent(self.lv(), l0);
            }
            let mut t = copy_scalars(&wbs);
            t.set(i, fx_add(wbs[i], H_STEP));
            proof {
                assert(t@ =~= probe_plus(wbs@, i as int));
            }
            let ghost before = self.lv();
            self.update_wb(&t);
            proof {
                lemma_update_congruent(before, l0, t@);
                lemma_update_shape(l0, t@);
                lemma_update_wf_facts(l0, t@, self.inputs as int);
                assert(same_shape(self.lv(), l0));
                assert(out_width(self.lv(), self.inputs as int) == out_width(
                    l0,
                    self.inputs as int,
                ));
            }
            let a = self.loss(&self.obs.ord_in, &self.obs.ord_out);
            let mut t2 = copy_scalars(&wbs);
            t2.set(i, fx_sub(wbs[i], H_STEP));
            proof {
                assert(t2@ =~= probe_minus(wbs@, i as int));
                lemma_counts_congruent(self.lv(), l0);
            }
            let ghost before2 = self.lv();
            self.update_wb(&t2);
            proof {
                lemma_update_congruent(before2, l0, t2@);
                lemma_update_shape(l0, t2@);
                lemma_update_wf_facts(l0, t2@, self.inputs as int);
                assert(out_width(self.lv(), self.inputs as int) == out_width(
                    l0,
                    self.inputs as int,
                ));
            }
            let b = self.loss(&self.obs.ord_in, &self.obs.ord_out);
            g.push(fx_div(fx_sub(a, b), 2 * H_STEP));
            i += 1;
        }
        proof {
            lemma_counts_congruent(self.lv(), l0);
        }
        let ghost before3 = self.lv();
        self.update_wb(&wbs);
        proof {
            lemma_update_congruent(before3, l0, wbs@);
            lemma_ribbon_round_trip(l0);
            assert(g@ =~= grad_seq(l0, self.cst, ins, outs));
        }
        g
    }

    /// One training step: estimates the gradient, moves every parameter
    /// against it scaled by the learning rate, and writes the whole new
    /// ribbon back at once.
    pub fn update_wbs(&mut self)
        requires
            old(self).wf(),
            old(self).obs_ok(),
        ensures
            final(self).lv() == step_spec(
                old(self).lv(),
                old(self).alpha,
                old(self).cst,
                old(self).obs.ord_in.deep_view(),
                old(self).obs.ord_out.deep_view(),
            ),
            final(self).wf(),
            final(self).obs_ok(),
            final(self).obs == old(self).obs,
            final(self).inputs == old(self).inputs,
            final(self).alpha == old(self).alpha,
            final(self).cst == old(self).cst,
    {
        let ghost l0 = self.lv();
        let ghost ins = self.obs.ord_in.deep_view();
        let ghost outs = self.obs.ord_out.deep_view();
        let wbs = self.get_wb();
        proof {
            lemma_ribbon_len(l0);
        }
        let g = self.estimate_gradient();
        let mut r: Vec<i64> = Vec::new();
        let mut i: usize = 0;
        while i < wbs.len()
            invariant
                i <= wbs@.len(),
                wbs@ == ribbon_of(l0),
                g@ == grad_seq(l0, self.cst, ins, outs),
                g@.len() == wbs@.len(),
                r@.len() == i,
                self.alpha == old(self).alpha,
                self.cst == old(self).cst,
                forall|t: int|
                    0 <= t < i ==> #[trigger] r@[t] == fx_sub_spec(
                        wbs@[t] as int,
                        fx_mul_spec(self.alpha as int, grad_at(l0, self.cst, ins, outs, t)),
                    ) as i64,
            decreases wbs@.len() - i,
        {
            r.push(fx_sub(wbs[i], fx_mul(self.alpha, g[i])));
            i += 1;
        }
        proof {
            assert(r@ =~= step_ribbon(l0, self.alpha, self.cst, ins, outs));
        }
        self.update_wb(&r);
        proof {
            lemma_update_shape(l0, r@);
            lemma_update_wf_facts(l0, r@, self.inputs as int);
            assert(out_width(self.lv(), self.inputs as int) == out_width(
                l0,
                self.inputs as int,
            ));
        }
    }

    /// Trains for exactly `iter` steps, sequentially, with no convergence
    /// check or early stopping.
    pub fn train(&mut self, iter: usize)
        requires
            old(self).wf(),
            old(self).obs_ok(),
        ensures
            final(self).lv() == train_spec(
                old(self).lv(),
                old(self).alpha,
                old(self).cst,
                old(self).obs.ord_in.deep_view(),
                old(self).obs.ord_out.deep_view(),
                iter as nat,
            ),
            final(self).wf(),
            final(self).obs == old(self).obs,
            final(self).inputs == old(self).inputs,
            final(self).alpha == old(self).alpha,
            final(self).cst == old(self).cst,
    {
        let ghost l0 = self.lv();
        let ghost ins = self.obs.ord_in.deep_view();
        let ghost outs = self.obs.ord_out.deep_view();
        let mut n: usize = 0;
        while n < iter
            invariant
                n <= iter,
                self.wf(),
                self.obs_ok(),
                self.obs == old(self).obs,
                self.inputs == old(self).inputs,
                self.alpha == old(self).alpha,
                self.cst == old(self).cst,
                ins == self.obs.ord_in.deep_view(),
                outs == self.obs.ord_out.deep_view(),
                self.lv() == train_spec(l0, self.alpha, self.cst, ins, outs, n as nat),
            decreases iter - n,
        {
            self.update_wbs();
            n += 1;
        }
    }
}

/// Facts needed after a ribbon write: the same-shape network keeps its
/// counts and width invariant.
pub proof fn lemma_update_wf_facts(l: Seq<Seq<NodeV>>, v: Seq<i64>, inputs: int)
    requires
        arch_ok(l, inputs),
        v.len() >= w_count(l) + unit_count(l),
    ensures
        same_shape(update_spec(l, v), l),
        arch_ok(update_spec(l, v), inputs),
        w_count(update_spec(l, v)) == w_count(l),
        unit_count(update_spec(l, v)) == unit_count(l),
{
    lemma_update_shape(l, v);
    lemma_arch_transfer(update_spec(l, v), l, inputs);
    lemma_counts_congruent(update_spec(l, v), l);
}

/// Forward evaluation is a function of the parameters and the input
/// alone: two runs of the same network on the same vector give the same
/// output.
pub proof fn lemma_calc_deterministic(
    l: Seq<Seq<NodeV>>,
    v: Seq<i64>,
    r1: Seq<i64>,
    r2: Seq<i64>,
)
    requires
        r1 == forward_spec(l, v),
        r2 == forward_spec(l, v),
    ensures
        r1 == r2,
{
}

} // verus!
