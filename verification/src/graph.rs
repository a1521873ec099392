//! Computation graphs, and the expressions that their nodes stand for.

use rlx_ir::Graph;
use vstd::prelude::*;
use vstd::string::*;

verus! {

/// `rlx_ir::Graph`, a list of nodes that each compute a tensor from earlier ones.
#[verifier::external_type_specification]
#[verifier::external_body]
pub struct ExGraph(rlx_ir::Graph);

/// An operation on two tensors, element by element.
#[derive(Debug, Clone, Copy, PartialEq, Eq, Structural)]
pub enum BinaryOp {
    Add,
    Sub,
    Mul,
    Div,
}

/// A function of a tensor, element by element.
#[derive(Debug, Clone, Copy, PartialEq, Eq, Structural)]
pub enum Activation {
    Exp,
    Log,
    Sqrt,
    Sigmoid,
}

/// What a node computes.
#[verifier::ext_equal]
pub enum OpModel {
    /// Numbers given as bytes, four for each, lowest first.
    Constant(Seq<u8>),
    Param(Seq<char>),
    Input(Seq<char>),
    Binary(BinaryOp),
    Activation(Activation),
    /// Some entries along an axis.
    Narrow(usize, usize, usize),
    Expand(Seq<i64>),
    Reshape(Seq<i64>),
    Concat(usize),
    /// The sum along some axes, which then disappear.
    Sum(Seq<usize>),
    /// Anything else.
    Other,
}

/// A node: what it computes, from which nodes, and the extents of its tensor.
#[verifier::ext_equal]
pub struct NodeModel {
    pub op: OpModel,
    pub inputs: Seq<u32>,
    pub dims: Seq<usize>,
}

/// The nodes of a graph.
pub uninterp spec fn graph_nodes(g: Graph) -> Seq<NodeModel>;

/// The nodes whose tensors a graph returns.
pub uninterp spec fn graph_outputs(g: Graph) -> Seq<u32>;

/// The name of a graph.
pub uninterp spec fn graph_name(g: Graph) -> Seq<char>;

/// Whether a graph has one more node, which is the last.
pub open spec fn pushed(before: Graph, after: Graph, id: u32, node: NodeModel) -> bool {
    &&& id == graph_nodes(before).len()
    &&& graph_nodes(after) == graph_nodes(before).push(node)
    &&& graph_outputs(after) == graph_outputs(before)
    &&& graph_name(after) == graph_name(before)
}

/// Whether there is room for `k` more nodes.
pub open spec fn has_room(g: Graph, k: nat) -> bool {
    graph_nodes(g).len() + k <= 0xffff_ffff
}

// ── building graphs ────────────────────────────────────────────────

/// `rlx_ir::Graph::new`: a graph with a name and no nodes.
#[verifier::external_body]
pub(crate) fn new_graph(name: &str) -> (res: Graph)
    ensures
        graph_name(res) == name@,
        graph_nodes(res).len() == 0,
        graph_outputs(res).len() == 0,
{
    Graph::new(name)
}

/// `rlx_ir::Graph::input`: a node for a tensor that is given when the graph runs.
#[verifier::external_body]
pub(crate) fn input(g: &mut Graph, name: &str, dims: &Vec<usize>) -> (id: u32)
    requires
        has_room(*old(g), 1),
    ensures
        pushed(
            *old(g),
            *final(g),
            id,
            (NodeModel { op: OpModel::Input(name@), inputs: Seq::empty(), dims: dims@ }),
        ),
{
    g.input(name, rlx_ir::Shape::new(dims, rlx_ir::DType::F32)).0
}

/// `rlx_ir::Graph::param`: a node for a tensor that is set before the graph runs.
#[verifier::external_body]
pub(crate) fn param(g: &mut Graph, name: &str, dims: &Vec<usize>) -> (id: u32)
    requires
        has_room(*old(g), 1),
    ensures
        pushed(
            *old(g),
            *final(g),
            id,
            (NodeModel { op: OpModel::Param(name@), inputs: Seq::empty(), dims: dims@ }),
        ),
{
    g.param(name, rlx_ir::Shape::new(dims, rlx_ir::DType::F32)).0
}

/// An operation without a builder of its own.
#[derive(Debug)]
pub enum PlainOp {
    Constant(Vec<u8>),
    Narrow(usize, usize, usize),
    Expand(Vec<i64>),
}

impl PlainOp {
    pub open spec fn model(self) -> OpModel {
        match self {
            PlainOp::Constant(data) => OpModel::Constant(data@),
            PlainOp::Narrow(axis, start, len) => OpModel::Narrow(axis, start, len),
            PlainOp::Expand(target) => OpModel::Expand(target@),
        }
    }
}

/// `rlx_ir::Graph::add_node`: a node for an operation on some nodes.
#[verifier::external_body]
pub(crate) fn add_node(g: &mut Graph, op: PlainOp, inputs: &Vec<u32>, dims: &Vec<usize>) -> (id: u32)
    requires
        has_room(*old(g), 1),
    ensures
        pushed(
            *old(g),
            *final(g),
            id,
            (NodeModel { op: op.model(), inputs: inputs@, dims: dims@ }),
        ),
{
    let op = match op {
        PlainOp::Constant(data) => rlx_ir::Op::Constant { data },
        PlainOp::Narrow(axis, start, len) => rlx_ir::Op::Narrow { axis, start, len },
        PlainOp::Expand(target_shape) => rlx_ir::Op::Expand { target_shape },
    };
    let inputs = inputs.iter().map(|i| rlx_ir::NodeId(*i)).collect();
    g.add_node(op, inputs, rlx_ir::Shape::new(dims, rlx_ir::DType::F32)).0
}

/// `rlx_ir::Graph::binary`: a node for an operation on two nodes.
#[verifier::external_body]
pub(crate) fn binary(g: &mut Graph, op: BinaryOp, a: u32, b: u32, dims: &Vec<usize>) -> (id: u32)
    requires
        has_room(*old(g), 1),
    ensures
        pushed(
            *old(g),
            *final(g),
            id,
            (NodeModel { op: OpModel::Binary(op), inputs: seq![a, b], dims: dims@ }),
        ),
{
    let op = match op {
        BinaryOp::Add => rlx_ir::op::BinaryOp::Add,
        BinaryOp::Sub => rlx_ir::op::BinaryOp::Sub,
        BinaryOp::Mul => rlx_ir::op::BinaryOp::Mul,
        BinaryOp::Div => rlx_ir::op::BinaryOp::Div,
    };
    let shape = rlx_ir::Shape::new(dims, rlx_ir::DType::F32);
    g.binary(op, rlx_ir::NodeId(a), rlx_ir::NodeId(b), shape).0
}

/// `rlx_ir::Graph::activation`: a node for a function of a node.
#[verifier::external_body]
pub(crate) fn activation(g: &mut Graph, act: Activation, a: u32, dims: &Vec<usize>) -> (id: u32)
    requires
        has_room(*old(g), 1),
    ensures
        pushed(
            *old(g),
            *final(g),
            id,
            (NodeModel { op: OpModel::Activation(act), inputs: seq![a], dims: dims@ }),
        ),
{
    let act = match act {
        Activation::Exp => rlx_ir::op::Activation::Exp,
        Activation::Log => rlx_ir::op::Activation::Log,
        Activation::Sqrt => rlx_ir::op::Activation::Sqrt,
        Activation::Sigmoid => rlx_ir::op::Activation::Sigmoid,
    };
    g.activation(act, rlx_ir::NodeId(a), rlx_ir::Shape::new(dims, rlx_ir::DType::F32)).0
}

/// `rlx_ir::Graph::reshape`: a node for the same numbers in other extents.
#[verifier::external_body]
pub(crate) fn reshape(g: &mut Graph, a: u32, target: Vec<i64>, dims: &Vec<usize>) -> (id: u32)
    requires
        has_room(*old(g), 1),
    ensures
        pushed(
            *old(g),
            *final(g),
            id,
            (NodeModel { op: OpModel::Reshape(target@), inputs: seq![a], dims: dims@ }),
        ),
{
    g.reshape(rlx_ir::NodeId(a), target, rlx_ir::Shape::new(dims, rlx_ir::DType::F32)).0
}

/// `rlx_ir::Graph::concat`: a node for some nodes one behind the other along an axis.
#[verifier::external_body]
pub(crate) fn concat(g: &mut Graph, inputs: &Vec<u32>, axis: usize, dims: &Vec<usize>) -> (id: u32)
    requires
        has_room(*old(g), 1),
    ensures
        pushed(
            *old(g),
            *final(g),
            id,
            (NodeModel { op: OpModel::Concat(axis), inputs: inputs@, dims: dims@ }),
        ),
{
    let inputs = inputs.iter().map(|i| rlx_ir::NodeId(*i)).collect();
    g.concat(inputs, axis, rlx_ir::Shape::new(dims, rlx_ir::DType::F32)).0
}

/// Whether axes are listed one after the other.
pub open spec fn adjacent(axes: Seq<usize>) -> bool {
    forall|i: int| #![trigger axes[i]] 0 <= i < axes.len() ==> axes[i] == axes[0] + i
}

/// `rlx_ir::Graph::reduce` with a sum: a node for the sum along adjacent axes, which
/// then disappear. Along other axes it adds more than one node.
#[verifier::external_body]
pub(crate) fn reduce_sum(g: &mut Graph, a: u32, axes: Vec<usize>, dims: &Vec<usize>) -> (id: u32)
    requires
        has_room(*old(g), 1),
        adjacent(axes@),
    ensures
        pushed(
            *old(g),
            *final(g),
            id,
            (NodeModel { op: OpModel::Sum(axes@), inputs: seq![a], dims: dims@ }),
        ),
{
    let shape = rlx_ir::Shape::new(dims, rlx_ir::DType::F32);
    g.reduce(rlx_ir::NodeId(a), rlx_ir::op::ReduceOp::Sum, axes, false, shape).0
}

/// `rlx_ir::Graph::set_outputs`: says which node's tensor the graph returns.
#[verifier::external_body]
pub(crate) fn set_output(g: &mut Graph, id: u32)
    ensures
        graph_outputs(*final(g)) == seq![id],
        graph_nodes(*final(g)) == graph_nodes(*old(g)),
        graph_name(*final(g)) == graph_name(*old(g)),
{
    g.set_outputs(vec![rlx_ir::NodeId(id)]);
}

/// The name of a node for a tensor that is set before the graph runs.
pub open spec fn param_name(n: NodeModel) -> Option<Seq<char>> {
    match n.op {
        OpModel::Param(name) => Some(name),
        _ => None,
    }
}

/// The names of all such nodes of a graph.
pub open spec fn param_names(nodes: Seq<NodeModel>) -> Seq<Option<Seq<char>>> {
    nodes.map_values(|n: NodeModel| param_name(n))
}

pub open spec fn opt_texts(s: Seq<Option<String>>) -> Seq<Option<Seq<char>>> {
    s.map_values(|t: Option<String>| crate::paths::opt_text(t))
}

/// `rlx_ir::Graph::nodes`: for each node of a graph, its name if it is one for a tensor
/// that is set before the graph runs.
#[verifier::external_body]
pub(crate) fn list_params(g: &Graph) -> (res: Vec<Option<String>>)
    ensures
        opt_texts(res@) == param_names(graph_nodes(*g)),
{
    let name = |n: &rlx_ir::Node| match &n.op {
        rlx_ir::Op::Param { name } => Some(name.clone()),
        _ => None,
    };
    g.nodes().iter().map(name).collect()
}

// ── expressions ────────────────────────────────────────────────────

/// An expression: an operation on other expressions, with the extents of its value.
#[verifier::ext_equal]
pub struct Expr {
    pub op: OpModel,
    pub args: Seq<Expr>,
    pub dims: Seq<usize>,
}

/// The expression that a node stands for.
#[verifier::opaque]
pub open spec fn expr_at(nodes: Seq<NodeModel>, id: int) -> Expr
    decreases id,
{
    let n = nodes[id];
    Expr {
        op: n.op,
        args: Seq::new(
            n.inputs.len(),
            |k: int|
                if 0 <= n.inputs[k] < id {
                    expr_at(nodes, n.inputs[k] as int)
                } else {
                    arbitrary()
                },
        ),
        dims: n.dims,
    }
}

/// Whether every node uses earlier nodes only.
pub open spec fn well_formed(nodes: Seq<NodeModel>) -> bool {
    forall|i: int, k: int|
        0 <= i < nodes.len() && 0 <= k < nodes[i].inputs.len() ==> (#[trigger] nodes[i].inputs[k]) < i
}

/// Whether a list of nodes goes on from another: the nodes of the other stand for what
/// they stood for.
pub open spec fn goes_on(before: Seq<NodeModel>, after: Seq<NodeModel>) -> bool {
    &&& before.len() <= after.len()
    &&& forall|i: int| 0 <= i < before.len() ==> #[trigger] expr_at(after, i) == expr_at(before, i)
}

proof fn lemma_prefix(before: Seq<NodeModel>, after: Seq<NodeModel>, i: int)
    requires
        before.len() <= after.len(),
        forall|k: int| 0 <= k < before.len() ==> #[trigger] after[k] == before[k],
        0 <= i < before.len(),
    ensures
        expr_at(after, i) == expr_at(before, i),
    decreases i,
{
    reveal(expr_at);
    let n = before[i];
    let a = expr_at(before, i);
    let b = expr_at(after, i);
    assert(after[i] == n);
    assert forall|k: int| 0 <= k < n.inputs.len() implies a.args[k] == b.args[k] by {
        if 0 <= n.inputs[k] < i {
            lemma_prefix(before, after, n.inputs[k] as int);
        }
    }
    assert(a.args =~= b.args);
}

/// A graph with more nodes behind the others goes on from the graph without them.
pub proof fn graphs_grow(before: Seq<NodeModel>, more: Seq<NodeModel>)
    ensures
        goes_on(before, before + more),
{
    assert forall|i: int| 0 <= i < before.len() implies #[trigger] expr_at(before + more, i)
        == expr_at(before, i) by {
        lemma_prefix(before, before + more, i);
    }
}

// ── steps ──────────────────────────────────────────────────────────

/// The expression that a node of a graph stands for.
pub open spec fn at(g: Graph, id: u32) -> Expr {
    expr_at(graph_nodes(g), id as int)
}

/// Whether a number is that of a node of a graph.
pub open spec fn is_node(g: Graph, id: u32) -> bool {
    id < graph_nodes(g).len()
}

/// Whether every node of a graph uses earlier nodes only.
pub open spec fn sound(g: Graph) -> bool {
    well_formed(graph_nodes(g))
}

/// Whether a graph has at most `cost` more nodes than another, whose nodes stand for
/// what they stood for.
pub open spec fn grown(before: Graph, after: Graph, cost: nat) -> bool {
    &&& sound(after)
    &&& goes_on(graph_nodes(before), graph_nodes(after))
    &&& graph_nodes(after).len() <= graph_nodes(before).len() + cost
    &&& graph_outputs(after) == graph_outputs(before)
    &&& graph_name(after) == graph_name(before)
}

/// Whether a node of a graph stands for an expression.
pub open spec fn stands(g: Graph, id: u32, e: Expr) -> bool {
    is_node(g, id) && at(g, id) == e
}

/// Growing twice is growing.
pub proof fn growing_adds_up(a: Graph, b: Graph, c: Graph, m: nat, n: nat)
    requires
        grown(a, b, m),
        grown(b, c, n),
    ensures
        grown(a, c, m + n),
{
}

pub open spec fn constant(data: Seq<u8>, dims: Seq<usize>) -> Expr {
    Expr { op: OpModel::Constant(data), args: Seq::empty(), dims }
}

pub open spec fn parameter(name: Seq<char>, dims: Seq<usize>) -> Expr {
    Expr { op: OpModel::Param(name), args: Seq::empty(), dims }
}

pub open spec fn given(name: Seq<char>, dims: Seq<usize>) -> Expr {
    Expr { op: OpModel::Input(name), args: Seq::empty(), dims }
}

pub open spec fn bin(op: BinaryOp, a: Expr, b: Expr, dims: Seq<usize>) -> Expr {
    Expr { op: OpModel::Binary(op), args: seq![a, b], dims }
}

pub open spec fn act(f: Activation, a: Expr, dims: Seq<usize>) -> Expr {
    Expr { op: OpModel::Activation(f), args: seq![a], dims }
}

pub open spec fn narrow(axis: usize, start: usize, len: usize, a: Expr, dims: Seq<usize>) -> Expr {
    Expr { op: OpModel::Narrow(axis, start, len), args: seq![a], dims }
}

/// A dimension as the target of an expansion.
pub open spec fn targets(dims: Seq<usize>) -> Seq<i64> {
    dims.map_values(|d: usize| d as i64)
}

/// Whether every extent can be the target of an expansion.
pub open spec fn dims_fit(dims: Seq<usize>) -> bool {
    forall|i: int| 0 <= i < dims.len() ==> #[trigger] dims[i] <= i64::MAX
}

pub open spec fn expand(a: Expr, dims: Seq<usize>) -> Expr {
    Expr { op: OpModel::Expand(targets(dims)), args: seq![a], dims }
}

pub open spec fn reshaped(a: Expr, dims: Seq<usize>) -> Expr {
    Expr { op: OpModel::Reshape(targets(dims)), args: seq![a], dims }
}

pub open spec fn joined(args: Seq<Expr>, axis: usize, dims: Seq<usize>) -> Expr {
    Expr { op: OpModel::Concat(axis), args, dims }
}

pub open spec fn summed(a: Expr, axes: Seq<usize>, dims: Seq<usize>) -> Expr {
    Expr { op: OpModel::Sum(axes), args: seq![a], dims }
}

/// The expressions that some nodes stand for.
pub open spec fn all_at(g: Graph, ids: Seq<u32>) -> Seq<Expr> {
    ids.map_values(|i: u32| at(g, i))
}

/// Whether some numbers are those of nodes of a graph.
pub open spec fn are_nodes(g: Graph, ids: Seq<u32>) -> bool {
    forall|i: int| 0 <= i < ids.len() ==> is_node(g, #[trigger] ids[i])
}

proof fn lemma_pushed(before: Graph, after: Graph, id: u32, node: NodeModel)
    requires
        sound(before),
        pushed(before, after, id, node),
        has_room(before, 1),
        forall|k: int| 0 <= k < node.inputs.len() ==> is_node(before, #[trigger] node.inputs[k]),
    ensures
        grown(before, after, 1),
        stands(
            after,
            id,
            Expr { op: node.op, args: all_at(before, node.inputs), dims: node.dims },
        ),
{
    reveal(expr_at);
    let a = graph_nodes(before);
    let b = graph_nodes(after);
    assert(a + seq![node] =~= b);
    graphs_grow(a, seq![node]);
    assert(b[id as int] == node);
    let e = expr_at(b, id as int);
    assert(e.args =~= all_at(before, node.inputs)) by {
        assert forall|k: int| 0 <= k < node.inputs.len() implies e.args[k] == all_at(
            before,
            node.inputs,
        )[k] by {
            assert(is_node(before, node.inputs[k]));
            assert(expr_at(b, node.inputs[k] as int) == expr_at(a, node.inputs[k] as int));
        }
    }
    assert forall|i: int, k: int|
        0 <= i < b.len() && 0 <= k < b[i].inputs.len() implies (#[trigger] b[i].inputs[k]) < i by {
        if i < a.len() {
            assert(b[i] == a[i]);
            assert(a[i].inputs[k] < i);
        } else {
            assert(is_node(before, node.inputs[k]));
        }
    }
}

pub(crate) fn put_input(g: &mut Graph, name: &str, dims: &Vec<usize>) -> (id: u32)
    requires
        sound(*old(g)),
        has_room(*old(g), 1),
    ensures
        grown(*old(g), *final(g), 1),
        stands(*final(g), id, given(name@, dims@)),
{
    let ghost before = *g;
    let id: u32 = input(g, name, dims);
    let ghost node = NodeModel { op: OpModel::Input(name@), inputs: Seq::empty(), dims: dims@ };
    proof {
        lemma_pushed(before, *g, id, node);
        assert(all_at(before, node.inputs) =~= Seq::empty());
    }
    id
}

pub(crate) fn put_param(g: &mut Graph, name: &str, dims: &Vec<usize>) -> (id: u32)
    requires
        sound(*old(g)),
        has_room(*old(g), 1),
    ensures
        grown(*old(g), *final(g), 1),
        stands(*final(g), id, parameter(name@, dims@)),
{
    let ghost before = *g;
    let id: u32 = param(g, name, dims);
    let ghost node = NodeModel { op: OpModel::Param(name@), inputs: Seq::empty(), dims: dims@ };
    proof {
        lemma_pushed(before, *g, id, node);
        assert(all_at(before, node.inputs) =~= Seq::empty());
    }
    id
}

pub(crate) fn put_constant(g: &mut Graph, data: Vec<u8>, dims: &Vec<usize>) -> (id: u32)
    requires
        sound(*old(g)),
        has_room(*old(g), 1),
    ensures
        grown(*old(g), *final(g), 1),
        stands(*final(g), id, constant(data@, dims@)),
{
    let ghost before = *g;
    let inputs: Vec<u32> = Vec::new();
    let id: u32 = add_node(g, PlainOp::Constant(data), &inputs, dims);
    let ghost node = NodeModel { op: OpModel::Constant(data@), inputs: inputs@, dims: dims@ };
    proof {
        lemma_pushed(before, *g, id, node);
        assert(all_at(before, node.inputs) =~= Seq::empty());
    }
    id
}

pub(crate) fn put_binary(g: &mut Graph, op: BinaryOp, a: u32, b: u32, dims: &Vec<usize>) -> (id: u32)
    requires
        sound(*old(g)),
        has_room(*old(g), 1),
        is_node(*old(g), a),
        is_node(*old(g), b),
    ensures
        grown(*old(g), *final(g), 1),
        stands(*final(g), id, bin(op, at(*old(g), a), at(*old(g), b), dims@)),
{
    let ghost before = *g;
    let id: u32 = binary(g, op, a, b, dims);
    let ghost node = NodeModel { op: OpModel::Binary(op), inputs: seq![a, b], dims: dims@ };
    proof {
        lemma_pushed(before, *g, id, node);
        assert(all_at(before, node.inputs) =~= seq![at(before, a), at(before, b)]);
    }
    id
}

pub(crate) fn put_activation(g: &mut Graph, f: Activation, a: u32, dims: &Vec<usize>) -> (id: u32)
    requires
        sound(*old(g)),
        has_room(*old(g), 1),
        is_node(*old(g), a),
    ensures
        grown(*old(g), *final(g), 1),
        stands(*final(g), id, act(f, at(*old(g), a), dims@)),
{
    let ghost before = *g;
    let id: u32 = activation(g, f, a, dims);
    let ghost node = NodeModel { op: OpModel::Activation(f), inputs: seq![a], dims: dims@ };
    proof {
        lemma_pushed(before, *g, id, node);
        assert(all_at(before, node.inputs) =~= seq![at(before, a)]);
    }
    id
}

pub(crate) fn put_narrow(
    g: &mut Graph,
    axis: usize,
    start: usize,
    len: usize,
    a: u32,
    dims: &Vec<usize>,
) -> (id: u32)
    requires
        sound(*old(g)),
        has_room(*old(g), 1),
        is_node(*old(g), a),
    ensures
        grown(*old(g), *final(g), 1),
        stands(*final(g), id, narrow(axis, start, len, at(*old(g), a), dims@)),
{
    let ghost before = *g;
    let mut inputs: Vec<u32> = Vec::new();
    inputs.push(a);
    let id: u32 = add_node(g, PlainOp::Narrow(axis, start, len), &inputs, dims);
    let ghost node = NodeModel {
        op: OpModel::Narrow(axis, start, len),
        inputs: inputs@,
        dims: dims@,
    };
    proof {
        lemma_pushed(before, *g, id, node);
        assert(all_at(before, node.inputs) =~= seq![at(before, a)]);
    }
    id
}

fn target_dims(dims: &Vec<usize>) -> (res: Vec<i64>)
    requires
        dims_fit(dims@),
    ensures
        res@ == targets(dims@),
{
    let mut out: Vec<i64> = Vec::new();
    let mut i: usize = 0;
    while i < dims.len()
        invariant
            i <= dims.len(),
            dims_fit(dims@),
            out@ =~= targets(dims@).take(i as int),
        decreases dims.len() - i,
    {
        assert(dims@[i as int] <= i64::MAX);
        out.push(dims[i] as i64);
        i = i + 1;
    }
    assert(out@ =~= targets(dims@));
    out
}

pub(crate) fn put_expand(g: &mut Graph, a: u32, dims: &Vec<usize>) -> (id: u32)
    requires
        sound(*old(g)),
        has_room(*old(g), 1),
        is_node(*old(g), a),
        dims_fit(dims@),
    ensures
        grown(*old(g), *final(g), 1),
        stands(*final(g), id, expand(at(*old(g), a), dims@)),
{
    let ghost before = *g;
    let mut inputs: Vec<u32> = Vec::new();
    inputs.push(a);
    let id: u32 = add_node(g, PlainOp::Expand(target_dims(dims)), &inputs, dims);
    let ghost node = NodeModel {
        op: OpModel::Expand(targets(dims@)),
        inputs: inputs@,
        dims: dims@,
    };
    proof {
        lemma_pushed(before, *g, id, node);
        assert(all_at(before, node.inputs) =~= seq![at(before, a)]);
    }
    id
}

pub(crate) fn put_reshape(g: &mut Graph, a: u32, dims: &Vec<usize>) -> (id: u32)
    requires
        sound(*old(g)),
        has_room(*old(g), 1),
        is_node(*old(g), a),
        dims_fit(dims@),
    ensures
        grown(*old(g), *final(g), 1),
        stands(*final(g), id, reshaped(at(*old(g), a), dims@)),
{
    let ghost before = *g;
    let id: u32 = reshape(g, a, target_dims(dims), dims);
    let ghost node = NodeModel {
        op: OpModel::Reshape(targets(dims@)),
        inputs: seq![a],
        dims: dims@,
    };
    proof {
        lemma_pushed(before, *g, id, node);
        assert(all_at(before, node.inputs) =~= seq![at(before, a)]);
    }
    id
}

pub(crate) fn put_concat(g: &mut Graph, inputs: &Vec<u32>, axis: usize, dims: &Vec<usize>) -> (id: u32)
    requires
        sound(*old(g)),
        has_room(*old(g), 1),
        are_nodes(*old(g), inputs@),
    ensures
        grown(*old(g), *final(g), 1),
        stands(*final(g), id, joined(all_at(*old(g), inputs@), axis, dims@)),
{
    let ghost before = *g;
    let id: u32 = concat(g, inputs, axis, dims);
    let ghost node = NodeModel { op: OpModel::Concat(axis), inputs: inputs@, dims: dims@ };
    proof {
        lemma_pushed(before, *g, id, node);
    }
    id
}

pub(crate) fn put_sum(g: &mut Graph, a: u32, axes: Vec<usize>, dims: &Vec<usize>) -> (id: u32)
    requires
        sound(*old(g)),
        has_room(*old(g), 1),
        is_node(*old(g), a),
        adjacent(axes@),
    ensures
        grown(*old(g), *final(g), 1),
        stands(*final(g), id, summed(at(*old(g), a), axes@, dims@)),
{
    let ghost before = *g;
    let id: u32 = reduce_sum(g, a, axes, dims);
    let ghost node = NodeModel { op: OpModel::Sum(axes@), inputs: seq![a], dims: dims@ };
    proof {
        lemma_pushed(before, *g, id, node);
        assert(all_at(before, node.inputs) =~= seq![at(before, a)]);
    }
    id
}

} // verus!
