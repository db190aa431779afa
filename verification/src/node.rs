//! Computational units: a weighted sum plus bias, then an activation.
//!
//! Two variants exist. The linear unit's activation subtracts the bias
//! again, so its bias has no effect on the value it computes; the affine
//! unit's activation is the identity, so its bias acts additively.
//! Parameter consumption (`take_w`, `take_b`) strips entries from the tail
//! of a ribbon, as the network-level codec requires.

use vstd::prelude::*;
use vstd::string::StringSliceAdditionalSpecFns;
use crate::fx::{fx_add, fx_sub, fx_mul, fx_add_spec, fx_sub_spec, fx_mul_spec};

verus! {

#[derive(Clone, Copy, PartialEq, Eq, Structural, Debug)]
pub enum NodeKind {
    Linear,
    Affine,
}

/// Spec-level image of a unit: its variant, weights and bias.
#[verifier::ext_equal]
pub ghost struct NodeV {
    pub kind: NodeKind,
    pub w: Seq<i64>,
    pub b: i64,
}

/// Unit whose activation is `x - bias`, cancelling the bias added in
/// `get_value`.
#[derive(Clone, Debug)]
pub struct LinearNode {
    pub w: Vec<i64>,
    pub b: i64,
    pub needed: usize,
}

/// Unit whose activation is the identity, so the bias acts additively.
#[derive(Clone, Debug)]
pub struct AffineNode {
    pub w: Vec<i64>,
    pub b: i64,
    pub needed: usize,
}

/// A computational unit of either variant.
#[derive(Clone, Debug)]
pub enum Node {
    Linear(LinearNode),
    Affine(AffineNode),
}

impl View for LinearNode {
    type V = NodeV;

    open spec fn view(&self) -> NodeV {
        NodeV { kind: NodeKind::Linear, w: self.w@, b: self.b }
    }
}

impl View for AffineNode {
    type V = NodeV;

    open spec fn view(&self) -> NodeV {
        NodeV { kind: NodeKind::Affine, w: self.w@, b: self.b }
    }
}

impl View for Node {
    type V = NodeV;

    open spec fn view(&self) -> NodeV {
        match self {
            Node::Linear(x) => x@,
            Node::Affine(x) => x@,
        }
    }
}

impl DeepView for Node {
    type V = NodeV;

    open spec fn deep_view(&self) -> NodeV {
        self@
    }
}

/// Left fold of saturating products: the clipped weighted sum of the first
/// `n` entries.
pub open spec fn dot_clip(xs: Seq<i64>, ws: Seq<i64>, n: int) -> int
    decreases n,
{
    if n <= 0 {
        0
    } else {
        fx_add_spec(dot_clip(xs, ws, n - 1), fx_mul_spec(xs[n - 1] as int, ws[n - 1] as int))
    }
}

/// The activation of each variant.
pub open spec fn act_spec(kind: NodeKind, x: int, b: int) -> int {
    match kind {
        NodeKind::Linear => fx_sub_spec(x, b),
        NodeKind::Affine => x,
    }
}

/// What a unit computes on an input vector: the activation applied to the
/// clipped weighted sum plus bias.
pub open spec fn eval_node(n: NodeV, xs: Seq<i64>) -> int {
    act_spec(n.kind, fx_add_spec(dot_clip(xs, n.w, xs.len() as int), n.b as int), n.b as int)
}

impl LinearNode {
    /// `needed` records how many weights the unit consumes.
    pub open spec fn wf(&self) -> bool {
        self.needed == self.w@.len()
    }

    /// Activation: subtract the bias.
    pub fn f(&self, x: i64) -> (r: i64)
        ensures
            r as int == act_spec(NodeKind::Linear, x as int, self@.b as int),
    {
        fx_sub(x, self.b)
    }

    pub fn needed(&self) -> (r: usize)
        ensures
            r == self.needed,
    {
        self.needed
    }

    /// Takes this unit's bias from the tail of the ribbon.
    pub fn take_b(&mut self, v: Vec<i64>) -> (r: Vec<i64>)
        requires
            v@.len() >= 1,
        ensures
            r@ == v@.subrange(0, v@.len() - 1),
            final(self)@.b == v@[v@.len() - 1],
            final(self)@.w == old(self)@.w,
            final(self)@.kind == old(self)@.kind,
            final(self).needed == old(self).needed,
    {
        let mut v = v;
        let last = v.pop();
        self.b = last.unwrap();
        v
    }

    /// Takes this unit's `needed` weights from the tail of the ribbon, in
    /// ribbon order.
    pub fn take_w(&mut self, v: Vec<i64>) -> (r: Vec<i64>)
        requires
            old(self).wf(),
            v@.len() >= old(self).needed,
        ensures
            r@ == v@.subrange(0, v@.len() - old(self).needed),
            final(self)@.w == v@.subrange(v@.len() - old(self).needed, v@.len() as int),
            final(self)@.b == old(self)@.b,
            final(self)@.kind == old(self)@.kind,
            final(self).needed == old(self).needed,
            final(self).wf(),
    {
        let mut v = v;
        let at = v.len() - self.needed;
        let tail = v.split_off(at);
        self.w = tail;
        v
    }

    pub fn bias(&self) -> (r: i64)
        ensures
            r == self@.b,
    {
        self.b
    }

    pub fn weight(&self, i: usize) -> (r: i64)
        requires
            i < self@.w.len(),
        ensures
            r == self@.w[i as int],
    {
        self.w[i]
    }

    pub fn weights(&self) -> (r: Vec<i64>)
        ensures
            r@ == self@.w,
    {
        copy_scalars(&self.w)
    }
}

impl AffineNode {
    pub open spec fn wf(&self) -> bool {
        self.needed == self.w@.len()
    }

    /// Activation: the identity.
    pub fn f(&self, x: i64) -> (r: i64)
        ensures
            r as int == act_spec(NodeKind::Affine, x as int, self@.b as int),
    {
        x
    }

    pub fn needed(&self) -> (r: usize)
        ensures
            r == self.needed,
    {
        self.needed
    }

    /// Takes this unit's bias from the tail of the ribbon.
    pub fn take_b(&mut self, v: Vec<i64>) -> (r: Vec<i64>)
        requires
            v@.len() >= 1,
        ensures
            r@ == v@.subrange(0, v@.len() - 1),
            final(self)@.b == v@[v@.len() - 1],
            final(self)@.w == old(self)@.w,
            final(self)@.kind == old(self)@.kind,
            final(self).needed == old(self).needed,
    {
        let mut v = v;
        let last = v.pop();
        self.b = last.unwrap();
        v
    }

    /// Takes this unit's `needed` weights from the tail of the ribbon, in
    /// ribbon order.
    pub fn take_w(&mut self, v: Vec<i64>) -> (r: Vec<i64>)
        requires
            old(self).wf(),
            v@.len() >= old(self).needed,
        ensures
            r@ == v@.subrange(0, v@.len() - old(self).needed),
            final(self)@.w == v@.subrange(v@.len() - old(self).needed, v@.len() as int),
            final(self)@.b == old(self)@.b,
            final(self)@.kind == old(self)@.kind,
            final(self).needed == old(self).needed,
            final(self).wf(),
    {
        let mut v = v;
        let at = v.len() - self.needed;
        let tail = v.split_off(at);
        self.w = tail;
        v
    }

    pub fn bias(&self) -> (r: i64)
        ensures
            r == self@.b,
    {
        self.b
    }

    pub fn weight(&self, i: usize) -> (r: i64)
        requires
            i < self@.w.len(),
        ensures
            r == self@.w[i as int],
    {
        self.w[i]
    }

    pub fn weights(&self) -> (r: Vec<i64>)
        ensures
            r@ == self@.w,
    {
        copy_scalars(&self.w)
    }
}

impl Node {
    pub open spec fn wf(&self) -> bool {
        match self {
            Node::Linear(x) => x.wf(),
            Node::Affine(x) => x.wf(),
        }
    }

    pub open spec fn needed_spec(&self) -> usize {
        match self {
            Node::Linear(x) => x.needed,
            Node::Affine(x) => x.needed,
        }
    }

    pub fn needed(&self) -> (r: usize)
        ensures
            r == self.needed_spec(),
    {
        match self {
            Node::Linear(x) => x.needed(),
            Node::Affine(x) => x.needed(),
        }
    }

    /// The unit's activation function.
    pub fn f(&self, x: i64) -> (r: i64)
        ensures
            r as int == act_spec(self@.kind, x as int, self@.b as int),
    {
        match self {
            Node::Linear(n) => n.f(x),
            Node::Affine(n) => n.f(x),
        }
    }

    pub fn bias(&self) -> (r: i64)
        ensures
            r == self@.b,
    {
        match self {
            Node::Linear(n) => n.bias(),
            Node::Affine(n) => n.bias(),
        }
    }

    pub fn weight(&self, i: usize) -> (r: i64)
        requires
            i < self@.w.len(),
        ensures
            r == self@.w[i as int],
    {
        match self {
            Node::Linear(n) => n.weight(i),
            Node::Affine(n) => n.weight(i),
        }
    }

    pub fn weights(&self) -> (r: Vec<i64>)
        ensures
            r@ == self@.w,
    {
        match self {
            Node::Linear(n) => n.weights(),
            Node::Affine(n) => n.weights(),
        }
    }

    /// Takes this unit's bias from the tail of the ribbon.
    pub fn take_b(&mut self, v: Vec<i64>) -> (r: Vec<i64>)
        requires
            v@.len() >= 1,
        ensures
            r@ == v@.subrange(0, v@.len() - 1),
            final(self)@.b == v@[v@.len() - 1],
            final(self)@.w == old(self)@.w,
            final(self)@.kind == old(self)@.kind,
            final(self).needed_spec() == old(self).needed_spec(),
            final(self).wf() == old(self).wf(),
    {
        match self {
            Node::Linear(n) => n.take_b(v),
            Node::Affine(n) => n.take_b(v),
        }
    }

    /// Takes this unit's `needed` weights from the tail of the ribbon.
    pub fn take_w(&mut self, v: Vec<i64>) -> (r: Vec<i64>)
        requires
            old(self).wf(),
            v@.len() >= old(self).needed_spec(),
        ensures
            r@ == v@.subrange(0, v@.len() - old(self).needed_spec()),
            final(self)@.w == v@.subrange(v@.len() - old(self).needed_spec(), v@.len() as int),
            final(self)@.b == old(self)@.b,
            final(self)@.kind == old(self)@.kind,
            final(self).needed_spec() == old(self).needed_spec(),
            final(self).wf(),
    {
        match self {
            Node::Linear(n) => n.take_w(v),
            Node::Affine(n) => n.take_w(v),
        }
    }

    /// The unit's value on an input vector: the activation applied to the
    /// clipped weighted sum of the inputs plus the bias.
    pub fn get_value(&self, ord_vals: &Vec<i64>) -> (r: i64)
        requires
            ord_vals@.len() <= self@.w.len(),
        ensures
            r as int == eval_node(self@, ord_vals@),
    {
        let mut acc: i64 = 0;
        let mut i: usize = 0;
        while i < ord_vals.len()
            invariant
                i <= ord_vals@.len(),
                ord_vals@.len() <= self@.w.len(),
                acc as int == dot_clip(ord_vals@, self@.w, i as int),
            decreases ord_vals@.len() - i,
        {
            acc = fx_add(acc, fx_mul(ord_vals[i], self.weight(i)));
            i += 1;
        }
        let s = fx_add(acc, self.bias());
        self.f(s)
    }
}

/// The unit variant a configuration token names, if it is supported.
pub open spec fn node_name_kind(bs: Seq<u8>) -> Option<NodeKind> {
    if bs == "linearnode".spec_bytes() {
        Some(NodeKind::Linear)
    } else if bs == "affinenode".spec_bytes() {
        Some(NodeKind::Affine)
    } else {
        None
    }
}

/// Builds a unit from its configuration token, initial weights and bias;
/// an unsupported token is rejected rather than defaulted.
pub fn node_from_name(name: &str, w: Vec<i64>, b: i64) -> (r: Option<Node>)
    ensures
        match node_name_kind(name.spec_bytes()) {
            Some(k) => r matches Some(n) && n@ == (NodeV { kind: k, w: w@, b: b }) && n.wf(),
            None => r is None,
        },
{
    if bytes_match(name.as_bytes(), "linearnode".as_bytes()) {
        let needed = w.len();
        Some(Node::Linear(LinearNode { w, b, needed }))
    } else if bytes_match(name.as_bytes(), "affinenode".as_bytes()) {
        let needed = w.len();
        Some(Node::Affine(AffineNode { w, b, needed }))
    } else {
        None
    }
}

/// Compares two byte strings for equality.
pub(crate) fn bytes_match(s: &[u8], t: &[u8]) -> (r: bool)
    ensures
        r == (s@ == t@),
{
    if s.len() != t.len() {
        return false;
    }
    let mut i: usize = 0;
    while i < s.len()
        invariant
            i <= s@.len(),
            s@.len() == t@.len(),
            forall|j: int| 0 <= j < i ==> s@[j] == t@[j],
        decreases s@.len() - i,
    {
        if s[i] != t[i] {
            return false;
        }
        i += 1;
    }
    proof {
        assert(s@ =~= t@);
    }
    true
}

/// Copies a scalar buffer.
pub(crate) fn copy_scalars(v: &Vec<i64>) -> (r: Vec<i64>)
    ensures
        r@ == v@,
{
    let mut r: Vec<i64> = Vec::new();
    let mut i: usize = 0;
    while i < v.len()
        invariant
            i <= v@.len(),
            r@ == v@.subrange(0, i as int),
        decreases v@.len() - i,
    {
        r.push(v[i]);
        i += 1;
    }
    proof {
        assert(r@ =~= v@);
    }
    r
}

} // verus!
