//! The description of an arithmetic circuit over the two Pasta fields: a
//! directed acyclic graph of gates, kept in a `petgraph` graph, whose edges
//! carry each wire from the node that produces its value to the nodes that
//! consume it.
use vstd::prelude::*;
use crate::field::{PastaFE, PastaFieldId};

use petgraph::graph::{DiGraph, NodeIndex};
use petgraph::Directed;

verus! {

/// Number of round-constant columns of a Poseidon gate (five rounds of three).
pub const ROUND_COEFF_POLYS: usize = 15;

// -------------------- SlotId --------------------

/// A cell of the trace table, one-indexed by row and column.
#[derive(Clone, Copy, Debug, PartialEq, Eq, Hash, Structural)]
pub struct SlotId {
    row: usize,
    column: usize,
}

impl SlotId {
    /// The row of the cell.
    pub closed spec fn spec_row(self) -> int {
        self.row as int
    }

    /// The column of the cell.
    pub closed spec fn spec_column(self) -> int {
        self.column as int
    }

    /// Two cells are equal exactly when their rows and their columns are;
    /// both coordinates fit a `usize`.
    pub proof fn lemma_coords(a: SlotId, b: SlotId)
        ensures
            0 <= a.spec_row() <= usize::MAX,
            0 <= a.spec_column() <= usize::MAX,
            (a == b) <==> (a.spec_row() == b.spec_row() && a.spec_column() == b.spec_column()),
    {
    }

    /// The cell is one-indexed in both coordinates.
    pub open spec fn wf(self) -> bool {
        self.spec_row() >= 1 && self.spec_column() >= 1
    }

    /// The flat position of the cell in a table of `n` rows, column by column.
    pub open spec fn flat(self, n: int) -> int {
        self.spec_row() - 1 + (self.spec_column() - 1) * n
    }

    /// The cell at one-indexed `row` and `column`; zero is refused in either.
    pub fn new(row: usize, column: usize) -> (r: Self)
        requires
            row != 0 && column != 0,
        ensures
            r.spec_row() == row,
            r.spec_column() == column,
            r.wf(),
    {
        Self { row, column }
    }

    pub fn row(&self) -> (r: usize)
        ensures
            r == self.spec_row(),
    {
        self.row
    }

    pub fn row_0_indexed(&self) -> (r: usize)
        requires
            self.wf(),
        ensures
            r == self.spec_row() - 1,
    {
        self.row - 1
    }

    pub fn column(&self) -> (r: usize)
        ensures
            r == self.spec_column(),
    {
        self.column
    }

    pub fn column_0_indexed(&self) -> (r: usize)
        requires
            self.wf(),
        ensures
            r == self.spec_column() - 1,
    {
        self.column - 1
    }

    /// The flat position of the cell in a table of `total_rows` rows.
    pub fn to_usize(&self, total_rows: usize) -> (r: usize)
        requires
            self.wf(),
            self.flat(total_rows as int) <= usize::MAX,
        ensures
            r == self.flat(total_rows as int),
    {
        proof {
            assert((self.column - 1) * total_rows <= self.flat(total_rows as int)) by (nonlinear_arith)
                requires
                    self.column >= 1,
                    self.row >= 1,
                    self.flat(total_rows as int) == self.row - 1 + (self.column - 1) * total_rows,
            ;
        }
        self.row - 1 + (self.column - 1) * total_rows
    }

    /// The cell at flat position `u` of a table of `n` rows.
    pub fn from_usize(u: usize, n: usize) -> (r: Self)
        requires
            n > 0,
            u / n < usize::MAX,
        ensures
            r.spec_row() == 1 + u % n,
            r.spec_column() == 1 + u / n,
            r.wf(),
    {
        SlotId { row: 1 + (u % n), column: 1 + (u / n) }
    }

    /// The value `row + (column - 1) * total_rows` as an element of `fid`.
    pub fn to_scalar(&self, total_rows: usize, fid: PastaFieldId) -> (r: PastaFE)
        requires
            self.wf(),
            self.spec_row() + (self.spec_column() - 1) * total_rows <= u64::MAX,
            self.spec_row() + (self.spec_column() - 1) * total_rows <= usize::MAX,
        ensures
            r.in_field(fid),
            r.v() == self.spec_row() + (self.spec_column() - 1) * total_rows,
    {
        proof {
            assert(0 <= (self.column - 1) * total_rows) by (nonlinear_arith)
                requires
                    self.column >= 1,
            ;
            crate::field::lemma_modulus_bounds(fid);
        }
        let v = (self.row + (self.column - 1) * total_rows) as u64;
        PastaFE::from_u64(v, Some(fid))
    }
}

/// Decoding a flat position gives back the position.
pub proof fn lemma_slot_flat_roundtrip(u: int, n: int)
    requires
        n > 0,
        u >= 0,
    ensures
        (u % n) + (u / n) * n == u,
{
    vstd::arithmetic::div_mod::lemma_fundamental_div_mod(u, n);
    vstd::arithmetic::mul::lemma_mul_is_commutative(n, u / n);
}

/// A cell of a table of `n` rows is found again from its flat position:
/// `from_usize(to_usize(s))` is `s` again.
pub proof fn lemma_slot_round_trip(s: SlotId, n: int)
    requires
        n > 0,
        s.wf(),
        s.spec_row() <= n,
    ensures
        s.flat(n) % n + 1 == s.spec_row(),
        s.flat(n) / n + 1 == s.spec_column(),
{
    let q = s.spec_column() - 1;
    let r = s.spec_row() - 1;
    assert(s.flat(n) == q * n + r) by (nonlinear_arith)
        requires
            s.flat(n) == s.spec_row() - 1 + (s.spec_column() - 1) * n,
            q == s.spec_column() - 1,
            r == s.spec_row() - 1,
    ;
    vstd::arithmetic::div_mod::lemma_fundamental_div_mod_converse(s.flat(n), n, q, r);
}

/// A flat position is found again from its cell: `to_usize(from_usize(u))`
/// is `u` again.
pub proof fn lemma_flat_round_trip(u: int, n: int)
    requires
        n > 0,
        u >= 0,
    ensures
        (1 + u % n) - 1 + ((1 + u / n) - 1) * n == u,
{
    lemma_slot_flat_roundtrip(u, n);
}

// -------------------- Wires and gates --------------------

/// A wire: the `output_id`-th output of node `node_idx`, the
/// `id`-th wire of field `fid`.
#[derive(Clone, Copy, Debug, PartialEq, Eq, Hash, Structural)]
pub struct Wire {
    pub id: usize,
    pub node_idx: usize,
    pub output_id: u32,
    pub fid: PastaFieldId,
}

/// The gates of a circuit, each with its input wires and output wires.
#[derive(Clone, Copy)]
pub enum GateType {
    Witness((), [Wire; 1]),
    PublicInput((), [Wire; 1]),
    Constant((), [Wire; 1], PastaFE),
    Output([Wire; 1], (), usize),
    ScalarMul([Wire; 4], [Wire; 2]),
    FpMessagePass([Wire; 1], [Wire; 2]),
    Invert([Wire; 2], [Wire; 1]),
    Negate([Wire; 2], [Wire; 1]),
    AssertEq([Wire; 2], ()),
    Add([Wire; 2], [Wire; 1]),
    Multiply([Wire; 2], [Wire; 1]),
    PoseidonEnd([Wire; 3], [Wire; 3]),
    Poseidon([Wire; 3], [Wire; 3], [PastaFE; 15]),
    AffineAdd([Wire; 4], [Wire; 2]),
}

// -------------------- Graph of gates --------------------

#[verifier::external_type_specification]
#[verifier::external_body]
pub struct ExDirected(Directed);

#[verifier::external_type_specification]
#[verifier::external_body]
#[verifier::reject_recursive_types(N)]
#[verifier::reject_recursive_types(E)]
#[verifier::reject_recursive_types(Ty)]
#[verifier::reject_recursive_types(Ix)]
pub struct ExGraph<N, E, Ty, Ix>(petgraph::graph::Graph<N, E, Ty, Ix>);

/// The node weights of a gate graph, by node index.
pub uninterp spec fn graph_nodes(g: DiGraph<GateType, Wire>) -> Seq<GateType>;

/// The edges of a gate graph, in insertion order, as (source, target, wire).
pub uninterp spec fn graph_edges(g: DiGraph<GateType, Wire>) -> Seq<(int, int, Wire)>;

/// `petgraph::Graph::new`: an empty directed graph.
#[verifier::external_body]
fn graph_new() -> (g: DiGraph<GateType, Wire>)
    ensures
        graph_nodes(g) == Seq::<GateType>::empty(),
        graph_edges(g) == Seq::<(int, int, Wire)>::empty(),
{
    DiGraph::new()
}

/// `petgraph::Graph::add_node`: appends a node, whose index is the old node
/// count. With `u32` indices the count must stay below `u32::MAX`.
#[verifier::external_body]
fn graph_add_node(g: &mut DiGraph<GateType, Wire>, weight: GateType) -> (r: usize)
    requires
        graph_nodes(*old(g)).len() < u32::MAX,
    ensures
        r == graph_nodes(*old(g)).len(),
        graph_nodes(*final(g)) == graph_nodes(*old(g)).push(weight),
        graph_edges(*final(g)) == graph_edges(*old(g)),
{
    g.add_node(weight).index()
}

/// `petgraph::Graph::add_edge`: appends an edge between two existing nodes.
#[verifier::external_body]
fn graph_add_edge(g: &mut DiGraph<GateType, Wire>, a: usize, b: usize, weight: Wire)
    requires
        a < graph_nodes(*old(g)).len(),
        b < graph_nodes(*old(g)).len(),
        graph_edges(*old(g)).len() < u32::MAX,
    ensures
        graph_nodes(*final(g)) == graph_nodes(*old(g)),
        graph_edges(*final(g)) == graph_edges(*old(g)).push((a as int, b as int, weight)),
{
    g.add_edge(NodeIndex::new(a), NodeIndex::new(b), weight);
}

/// `petgraph::Graph::node_count`.
#[verifier::external_body]
pub(crate) fn graph_node_count(g: &DiGraph<GateType, Wire>) -> (r: usize)
    ensures
        r == graph_nodes(*g).len(),
{
    g.node_count()
}

/// `petgraph::Graph::node_weight`, copied out: the weight of an existing node.
/// The index is narrowed to `u32` by petgraph, so it must be below `u32::MAX`.
#[verifier::external_body]
pub(crate) fn graph_node_weight(g: &DiGraph<GateType, Wire>, i: usize) -> (r: Option<GateType>)
    requires
        i < u32::MAX,
    ensures
        i < graph_nodes(*g).len() ==> r == Some(graph_nodes(*g)[i as int]),
        i >= graph_nodes(*g).len() ==> r is None,
{
    g.node_weight(NodeIndex::new(i)).copied()
}

/// `petgraph::Graph::clone`: a graph with the same nodes and edges.
#[verifier::external_body]
fn graph_clone(g: &DiGraph<GateType, Wire>) -> (r: DiGraph<GateType, Wire>)
    ensures
        graph_nodes(r) == graph_nodes(*g),
        graph_edges(r) == graph_edges(*g),
{
    g.clone()
}

/// `order` lists every node of a graph of `n` nodes once, each before its
/// successors.
pub open spec fn is_topo_order(order: Seq<usize>, n: int, edges: Seq<(int, int, Wire)>) -> bool {
    &&& order.len() == n
    &&& forall|i: int| 0 <= i < n ==> #[trigger] order[i] < n
    &&& forall|i: int, j: int| 0 <= i < j < n ==> order[i] != order[j]
    &&& forall|e: int, i: int, j: int|
        #![trigger edges[e], order[i], order[j]]
        0 <= e < edges.len() && 0 <= i < n && 0 <= j < n && order[i] == edges[e].0 && order[j]
            == edges[e].1 ==> i < j
}

/// Every edge of the graph goes from a lower node index to a higher one.
pub open spec fn edges_forward(edges: Seq<(int, int, Wire)>) -> bool {
    forall|e: int| 0 <= e < edges.len() ==> #[trigger] edges[e].0 < edges[e].1
}

/// `petgraph::algo::toposort`: on success, the node indices in topological
/// order; an error only for a graph with a cycle, which a graph whose edges
/// all go forward cannot have.
#[verifier::external_body]
pub(crate) fn graph_toposort(g: &DiGraph<GateType, Wire>) -> (r: Result<Vec<usize>, ()>)
    ensures
        r matches Ok(order) ==> is_topo_order(
            order@,
            graph_nodes(*g).len() as int,
            graph_edges(*g),
        ),
        edges_forward(graph_edges(*g)) ==> r is Ok,
{
    match petgraph::algo::toposort(g, None) {
        Ok(order) => Ok(order.into_iter().map(|n| n.index()).collect()),
        Err(_) => Err(()),
    }
}

// -------------------- Well-formed circuits --------------------

/// The wire is one of the first `wc[fid]` wires of its field and comes from
/// a node below `below`.
pub open spec fn wire_ok(w: Wire, wc: [usize; 2], below: int) -> bool {
    w.node_idx < below && w.id < wc[w.fid.spec_idx()]
}

/// The wire is an output of node `i` of field `f`.
pub open spec fn out_ok(w: Wire, i: int, f: PastaFieldId, wc: [usize; 2]) -> bool {
    w.node_idx == i && w.fid == f && w.id < wc[f.spec_idx()]
}

/// A two-input, one-output gate at node `i` of a single field.
pub open spec fn binary_ok(a: [Wire; 2], o: [Wire; 1], i: int, wc: [usize; 2]) -> bool {
    let f = a[0].fid;
    &&& wire_ok(a[0], wc, i)
    &&& wire_ok(a[1], wc, i)
    &&& a[1].fid == f
    &&& out_ok(o[0], i, f, wc)
}

/// Node `i` holds a gate that reads wires of earlier nodes and produces wires of
/// node `i`, with the fields its kind demands.
pub open spec fn gate_ok(g: GateType, i: int, wc: [usize; 2]) -> bool {
    match g {
        GateType::Witness(_, o) => out_ok(o[0], i, o[0].fid, wc),
        GateType::PublicInput(_, o) => out_ok(o[0], i, o[0].fid, wc),
        GateType::Constant(_, o, c) => out_ok(o[0], i, o[0].fid, wc) && c.in_field(o[0].fid),
        GateType::Output(a, _, _) => wire_ok(a[0], wc, i),
        GateType::ScalarMul(a, o) => {
            let f = a[2].fid;
            &&& forall|k: int| 0 <= k < 4 ==> wire_ok(#[trigger] a[k], wc, i) && a[k].fid == f
            &&& forall|k: int| 0 <= k < 2 ==> out_ok(#[trigger] o[k], i, f, wc)
        },
        GateType::FpMessagePass(a, o) => {
            &&& wire_ok(a[0], wc, i) && a[0].fid == PastaFieldId::Fp
            &&& forall|k: int| 0 <= k < 2 ==> out_ok(#[trigger] o[k], i, PastaFieldId::Fq, wc)
        },
        GateType::Invert(a, o) => binary_ok(a, o, i, wc),
        GateType::Negate(a, o) => binary_ok(a, o, i, wc),
        GateType::Add(a, o) => binary_ok(a, o, i, wc),
        GateType::Multiply(a, o) => binary_ok(a, o, i, wc),
        GateType::AssertEq(a, _) => {
            &&& forall|k: int| 0 <= k < 2 ==> wire_ok(#[trigger] a[k], wc, i)
            &&& a[0].fid == a[1].fid
        },
        GateType::PoseidonEnd(a, o) => {
            let f = a[0].fid;
            &&& forall|k: int| 0 <= k < 3 ==> wire_ok(#[trigger] a[k], wc, i) && a[k].fid == f
            &&& forall|k: int| 0 <= k < 3 ==> out_ok(#[trigger] o[k], i, f, wc)
        },
        GateType::Poseidon(a, o, r) => {
            let f = a[0].fid;
            &&& forall|k: int| 0 <= k < 3 ==> wire_ok(#[trigger] a[k], wc, i) && a[k].fid == f
            &&& forall|k: int| 0 <= k < 3 ==> out_ok(#[trigger] o[k], i, f, wc)
            &&& forall|k: int| 0 <= k < 15 ==> (#[trigger] r[k]).in_field(f)
        },
        GateType::AffineAdd(a, o) => {
            let f = a[0].fid;
            &&& forall|k: int| 0 <= k < 4 ==> wire_ok(#[trigger] a[k], wc, i) && a[k].fid == f
            &&& forall|k: int| 0 <= k < 2 ==> out_ok(#[trigger] o[k], i, f, wc)
        },
    }
}

/// The output wires of a gate, by output index.
pub open spec fn outputs(g: GateType) -> Seq<Wire> {
    match g {
        GateType::Witness(_, o) => seq![o[0]],
        GateType::PublicInput(_, o) => seq![o[0]],
        GateType::Constant(_, o, _) => seq![o[0]],
        GateType::Output(_, _, _) => Seq::empty(),
        GateType::ScalarMul(_, o) => seq![o[0], o[1]],
        GateType::FpMessagePass(_, o) => seq![o[0], o[1]],
        GateType::Invert(_, o) => seq![o[0]],
        GateType::Negate(_, o) => seq![o[0]],
        GateType::AssertEq(_, _) => Seq::empty(),
        GateType::Add(_, o) => seq![o[0]],
        GateType::Multiply(_, o) => seq![o[0]],
        GateType::PoseidonEnd(_, o) => seq![o[0], o[1], o[2]],
        GateType::Poseidon(_, o, _) => seq![o[0], o[1], o[2]],
        GateType::AffineAdd(_, o) => seq![o[0], o[1]],
    }
}

/// The input wires of a gate that its rows or outputs are made from; each
/// comes in by an edge from the node that produces it.
pub open spec fn edged_inputs(g: GateType) -> Seq<Wire> {
    match g {
        GateType::Output(a, _, _) => seq![a[0]],
        GateType::ScalarMul(a, _) => seq![a[0], a[1], a[2], a[3]],
        GateType::FpMessagePass(a, _) => seq![a[0]],
        GateType::Invert(a, _) => seq![a[0], a[1]],
        GateType::Negate(a, _) => seq![a[0], a[1]],
        GateType::AssertEq(a, _) => seq![a[0], a[1]],
        GateType::Add(a, _) => seq![a[0], a[1]],
        GateType::Multiply(a, _) => seq![a[0], a[1]],
        GateType::PoseidonEnd(a, _) => seq![a[0], a[1], a[2]],
        GateType::Poseidon(a, _, _) => seq![a[0], a[1], a[2]],
        GateType::AffineAdd(a, _) => seq![a[0], a[1], a[2], a[3]],
        _ => Seq::empty(),
    }
}

/// Two output gates of one field write distinct output slots.
pub open spec fn output_slots_differ(g: GateType, h: GateType) -> bool {
    match (g, h) {
        (GateType::Output(a, _, k), GateType::Output(b, _, l)) => a[0].fid == b[0].fid ==> k != l,
        _ => true,
    }
}

/// `w` is the output of its node that its output index names.
pub open spec fn produced(nodes: Seq<GateType>, w: Wire) -> bool {
    &&& w.node_idx < nodes.len()
    &&& w.output_id < outputs(nodes[w.node_idx as int]).len()
    &&& outputs(nodes[w.node_idx as int])[w.output_id as int] == w
}

/// An edge carries `w` from its node into node `i`.
pub open spec fn has_edge(edges: Seq<(int, int, Wire)>, w: Wire, i: int) -> bool {
    exists|e: int| 0 <= e < edges.len() && #[trigger] edges[e] == (w.node_idx as int, i, w)
}

/// The outputs of a well-placed gate at node `i` belong to node `i` and lie
/// below the wire counters of their fields.
pub proof fn lemma_outputs_placed(g: GateType, i: int, wc: [usize; 2])
    requires
        gate_ok(g, i, wc),
    ensures
        forall|k: int| 0 <= k < outputs(g).len() ==> (#[trigger] outputs(g)[k]).node_idx == i
            && outputs(g)[k].id < wc[outputs(g)[k].fid.spec_idx()],
{
    match g {
        GateType::ScalarMul(_, o) => {
            assert(out_ok(o[0], i, o[0].fid, wc) && out_ok(o[1], i, o[1].fid, wc));
        },
        GateType::FpMessagePass(_, o) => {
            assert(out_ok(o[0], i, PastaFieldId::Fq, wc) && out_ok(o[1], i, PastaFieldId::Fq, wc));
        },
        GateType::PoseidonEnd(_, o) => {
            assert(out_ok(o[0], i, o[0].fid, wc) && out_ok(o[1], i, o[1].fid, wc) && out_ok(o[2], i, o[2].fid, wc));
        },
        GateType::Poseidon(_, o, _) => {
            assert(out_ok(o[0], i, o[0].fid, wc) && out_ok(o[1], i, o[1].fid, wc) && out_ok(o[2], i, o[2].fid, wc));
        },
        GateType::AffineAdd(_, o) => {
            assert(out_ok(o[0], i, o[0].fid, wc) && out_ok(o[1], i, o[1].fid, wc));
        },
        _ => {},
    }
}

/// `g` is a public-input gate of field `f`.
pub open spec fn is_public_input_of(g: GateType, f: PastaFieldId) -> bool {
    g matches GateType::PublicInput(_, o) && o[0].fid == f
}

/// The indices of the public-input gates of field `f`.
pub open spec fn public_input_nodes(nodes: Seq<GateType>, f: PastaFieldId) -> Set<int> {
    Set::new(|i: int| 0 <= i < nodes.len() && is_public_input_of(nodes[i], f))
}

/// The indices of the message-pass gates.
pub open spec fn message_pass_nodes(nodes: Seq<GateType>) -> Set<int> {
    Set::new(|i: int| 0 <= i < nodes.len() && nodes[i] is FpMessagePass)
}

/// A set of node indices below `n` is finite and has at most `n` elements.
pub proof fn lemma_index_set_finite(s: Set<int>, n: int)
    requires
        0 <= n,
        forall|i: int| s.contains(i) ==> 0 <= i < n,
    ensures
        s.finite(),
        s.len() <= n,
{
    vstd::set_lib::lemma_int_range(0, n);
    vstd::set_lib::lemma_len_subset(s, vstd::set_lib::set_int_range(0, n));
}

/// Appending a gate adds it to the set of its kind, and to no other.
pub proof fn lemma_node_sets_push(nodes: Seq<GateType>, g: GateType)
    ensures
        forall|f: PastaFieldId| #[trigger] public_input_nodes(nodes.push(g), f).len() == public_input_nodes(nodes, f).len()
            + if is_public_input_of(g, f) { 1int } else { 0int },
        message_pass_nodes(nodes.push(g)).len() == message_pass_nodes(nodes).len() + if g is FpMessagePass {
            1int
        } else {
            0int
        },
{
    let n = nodes.len() as int;
    let s2 = nodes.push(g);
    assert forall|f: PastaFieldId| #[trigger] public_input_nodes(s2, f).len() == public_input_nodes(nodes, f).len()
        + if is_public_input_of(g, f) { 1int } else { 0int } by {
        let a = public_input_nodes(nodes, f);
        lemma_index_set_finite(a, n);
        assert(!a.contains(n));
        if is_public_input_of(g, f) {
            assert(public_input_nodes(s2, f) =~= a.insert(n));
        } else {
            assert(public_input_nodes(s2, f) =~= a);
        }
    }
    let b = message_pass_nodes(nodes);
    lemma_index_set_finite(b, n);
    assert(!b.contains(n));
    if g is FpMessagePass {
        assert(message_pass_nodes(s2) =~= b.insert(n));
    } else {
        assert(message_pass_nodes(s2) =~= b);
    }
}

/// A circuit: its graph of gates and, per field, counters of its wires and rows.
pub struct CircuitSpec {
    pub graph: DiGraph<GateType, Wire>,
    pub zero: [Wire; 2],
    pub one: [Wire; 2],
    pub witness_wire_count: [usize; 2],
    pub public_input_wire_count: [usize; 2],
    pub message_pass_wire_count: [usize; 2],
    pub output_wire_count: [usize; 2],
    pub row_count: [usize; 2],
    pub wire_count: [usize; 2],
}

/// The field with array position `k`.
pub open spec fn field_at(k: int) -> PastaFieldId {
    if k == 0 {
        PastaFieldId::Fp
    } else {
        PastaFieldId::Fq
    }
}

impl CircuitSpec {
    /// The gates of the circuit, by node index.
    pub open spec fn nodes(&self) -> Seq<GateType> {
        graph_nodes(self.graph)
    }

    /// The edges of the circuit.
    pub open spec fn edges(&self) -> Seq<(int, int, Wire)> {
        graph_edges(self.graph)
    }

    /// The wire is a wire of this circuit: an output of one of its gates.
    pub open spec fn valid_wire(&self, w: Wire) -> bool {
        wire_ok(w, self.wire_count, self.nodes().len() as int) && produced(self.nodes(), w)
    }

    /// Every edged input is an output of an earlier gate and comes in by an
    /// edge, every output carries its own output index, no two outputs of
    /// one field share an id, and the output gates of one field fill distinct
    /// output slots below the field's output counter.
    pub open spec fn wires_ok(&self) -> bool {
        let nodes = self.nodes();
        &&& forall|i: int|
            0 <= i < nodes.len() ==> (#[trigger] nodes[i] matches GateType::Output(a, _, k) ==> k
                < self.output_wire_count[a[0].fid.spec_idx()])
        &&& forall|i: int, j: int|
            0 <= i < nodes.len() && 0 <= j < nodes.len() && i != j ==> output_slots_differ(
                #[trigger] nodes[i],
                #[trigger] nodes[j],
            )
        &&& forall|i: int, k: int|
            0 <= i < nodes.len() && 0 <= k < edged_inputs(nodes[i]).len() ==> produced(
                nodes,
                #[trigger] edged_inputs(nodes[i])[k],
            ) && has_edge(self.edges(), edged_inputs(nodes[i])[k], i)
        &&& forall|i: int, k: int|
            0 <= i < nodes.len() && 0 <= k < outputs(nodes[i]).len() ==> (#[trigger] outputs(nodes[i])[k]).output_id == k
        &&& forall|i: int, k: int, j: int, l: int|
            #![trigger outputs(nodes[i])[k], outputs(nodes[j])[l]]
            0 <= i < nodes.len() && 0 <= k < outputs(nodes[i]).len() && 0 <= j < nodes.len() && 0 <= l < outputs(
                nodes[j],
            ).len() && outputs(nodes[i])[k].id == outputs(nodes[j])[l].id && outputs(nodes[i])[k].fid == outputs(
                nodes[j],
            )[l].fid ==> i == j && k == l
    }

    /// Every gate is well placed and every edge carries a wire from an
    /// earlier node to a later one.
    pub open spec fn wf_core(&self) -> bool {
        &&& self.nodes().len() < u32::MAX
        &&& self.edges().len() < u32::MAX
        &&& forall|i: int| 0 <= i < self.nodes().len() ==> gate_ok(#[trigger] self.nodes()[i], i, self.wire_count)
        &&& forall|e: int| 0 <= e < self.edges().len() ==> {
            let (a, b, w) = #[trigger] self.edges()[e];
            &&& 0 <= a < b < self.nodes().len()
            &&& w.node_idx == a
        }
    }

    /// The zero and one wires are wires of their fields.
    pub open spec fn units_ok(&self) -> bool {
        &&& forall|k: int| 0 <= k < 2 ==> self.valid_wire(#[trigger] self.zero[k]) && self.zero[k].fid == field_at(k)
        &&& forall|k: int| 0 <= k < 2 ==> self.valid_wire(#[trigger] self.one[k]) && self.one[k].fid == field_at(k)
    }

    /// The counters of public-input and message-pass wires count their
    /// gates: one public-input wire per public-input gate of each field, two
    /// message-pass wires of `Fq` per message-pass gate, none of `Fp`.
    pub open spec fn counts_ok(&self) -> bool {
        &&& self.public_input_wire_count[0] == public_input_nodes(self.nodes(), PastaFieldId::Fp).len()
        &&& self.public_input_wire_count[1] == public_input_nodes(self.nodes(), PastaFieldId::Fq).len()
        &&& self.message_pass_wire_count[0] == 0
        &&& self.message_pass_wire_count[1] == 2 * message_pass_nodes(self.nodes()).len()
    }

    /// A well-formed circuit.
    pub open spec fn wf(&self) -> bool {
        self.wf_core() && self.units_ok() && self.counts_ok() && self.wires_ok()
    }

    /// There is room for `nn` more nodes, `ne` more edges, `nw` more wires of
    /// field `f` and `nr` more rows of field `f`.
    pub open spec fn has_room(&self, f: PastaFieldId, nn: int, ne: int, nw: int, nr: int) -> bool {
        &&& self.nodes().len() + nn < u32::MAX
        &&& self.edges().len() + ne < u32::MAX
        &&& self.wire_count[f.spec_idx()] + nw <= usize::MAX
        &&& self.row_count[f.spec_idx()] + nr <= usize::MAX
    }

    /// `self` is `old` with `nw` more wires and `nr` more rows of field `f`,
    /// the other counters unchanged.
    pub open spec fn counted(self, old: CircuitSpec, f: PastaFieldId, nw: int, nr: int) -> bool {
        &&& self.wire_count[f.spec_idx()] == old.wire_count[f.spec_idx()] + nw
        &&& self.wire_count[f.other().spec_idx()] == old.wire_count[f.other().spec_idx()]
        &&& self.row_count[f.spec_idx()] == old.row_count[f.spec_idx()] + nr
        &&& self.row_count[f.other().spec_idx()] == old.row_count[f.other().spec_idx()]
        &&& self.zero == old.zero
        &&& self.one == old.one
    }

    /// The `k`-th new wire of a node: the next wire of field `f` in `old`.
    pub open spec fn fresh(old: CircuitSpec, f: PastaFieldId, k: int, w: Wire) -> bool {
        &&& w.id == old.wire_count[f.spec_idx()] + k
        &&& w.node_idx == old.nodes().len()
        &&& w.output_id == k
        &&& w.fid == f
    }
}

/// A gate stays well placed when the wire counters grow.
pub proof fn lemma_gate_ok_mono(g: GateType, i: int, wc: [usize; 2], wc2: [usize; 2])
    requires
        gate_ok(g, i, wc),
        wc[0] <= wc2[0],
        wc[1] <= wc2[1],
    ensures
        gate_ok(g, i, wc2),
{
    assert forall|w: Wire, b: int| wire_ok(w, wc, b) implies #[trigger] wire_ok(w, wc2, b) by {
        assert(w.fid.spec_idx() == 0 || w.fid.spec_idx() == 1);
    }
    assert forall|w: Wire, j: int, f: PastaFieldId| out_ok(w, j, f, wc) implies #[trigger] out_ok(w, j, f, wc2) by {
        assert(f.spec_idx() == 0 || f.spec_idx() == 1);
    }
}

/// A wire of an earlier node is still a wire after counters and nodes grow.
pub proof fn lemma_wire_ok_mono(w: Wire, wc: [usize; 2], b: int, wc2: [usize; 2], b2: int)
    requires
        wire_ok(w, wc, b),
        wc[0] <= wc2[0],
        wc[1] <= wc2[1],
        b <= b2,
    ensures
        wire_ok(w, wc2, b2),
{
    assert(w.fid.spec_idx() == 0 || w.fid.spec_idx() == 1);
}

impl CircuitSpec {
    /// Well-formedness is kept when only wire counters grow and nodes are
    /// appended.
    proof fn lemma_grow(old: CircuitSpec, new: CircuitSpec)
        requires
            old.wf_core(),
            old.wire_count[0] <= new.wire_count[0],
            old.wire_count[1] <= new.wire_count[1],
            old.nodes().len() <= new.nodes().len() < u32::MAX,
            new.edges().len() < u32::MAX,
            forall|i: int| 0 <= i < old.nodes().len() ==> new.nodes()[i] == old.nodes()[i],
            forall|i: int| old.nodes().len() <= i < new.nodes().len() ==> gate_ok(#[trigger] new.nodes()[i], i, new.wire_count),
            forall|e: int| 0 <= e < old.edges().len() ==> new.edges()[e] == old.edges()[e],
            forall|e: int| old.edges().len() <= e < new.edges().len() ==> {
                let (a, b, w) = #[trigger] new.edges()[e];
                &&& 0 <= a < b < new.nodes().len()
                &&& w.node_idx == a
            },
            new.edges().len() >= old.edges().len(),
        ensures
            new.wf_core(),
            old.units_ok() && new.zero == old.zero && new.one == old.one ==> new.units_ok(),
    {
        assert forall|i: int| 0 <= i < new.nodes().len() implies gate_ok(#[trigger] new.nodes()[i], i, new.wire_count) by {
            if i < old.nodes().len() {
                lemma_gate_ok_mono(old.nodes()[i], i, old.wire_count, new.wire_count);
            }
        }
        if old.units_ok() && new.zero == old.zero && new.one == old.one {
            assert forall|k: int| 0 <= k < 2 implies new.valid_wire(#[trigger] new.zero[k]) by {
                assert(new.nodes()[old.zero[k].node_idx as int] == old.nodes()[old.zero[k].node_idx as int]);
                lemma_wire_ok_mono(old.zero[k], old.wire_count, old.nodes().len() as int, new.wire_count, new.nodes().len() as int);
            }
            assert forall|k: int| 0 <= k < 2 implies new.valid_wire(#[trigger] new.one[k]) by {
                assert(new.nodes()[old.one[k].node_idx as int] == old.nodes()[old.one[k].node_idx as int]);
                lemma_wire_ok_mono(old.one[k], old.wire_count, old.nodes().len() as int, new.wire_count, new.nodes().len() as int);
            }
        }
    }

    /// The counters stay exact when one gate is appended and the counters
    /// of its kind grow by its wires.
    proof fn lemma_counts_step(old: CircuitSpec, new: CircuitSpec)
        requires
            old.counts_ok(),
            new.nodes() == old.nodes().push(new.nodes().last()),
            new.public_input_wire_count[0] == old.public_input_wire_count[0] + if is_public_input_of(
                new.nodes().last(),
                PastaFieldId::Fp,
            ) {
                1int
            } else {
                0int
            },
            new.public_input_wire_count[1] == old.public_input_wire_count[1] + if is_public_input_of(
                new.nodes().last(),
                PastaFieldId::Fq,
            ) {
                1int
            } else {
                0int
            },
            new.message_pass_wire_count[0] == old.message_pass_wire_count[0],
            new.message_pass_wire_count[1] == old.message_pass_wire_count[1] + if new.nodes().last() is FpMessagePass {
                2int
            } else {
                0int
            },
        ensures
            new.counts_ok(),
    {
        lemma_node_sets_push(old.nodes(), new.nodes().last());
        assert(public_input_nodes(new.nodes(), PastaFieldId::Fp).len() == public_input_nodes(old.nodes(), PastaFieldId::Fp).len()
            + if is_public_input_of(new.nodes().last(), PastaFieldId::Fp) { 1int } else { 0int });
        assert(public_input_nodes(new.nodes(), PastaFieldId::Fq).len() == public_input_nodes(old.nodes(), PastaFieldId::Fq).len()
            + if is_public_input_of(new.nodes().last(), PastaFieldId::Fq) { 1int } else { 0int });
    }

    /// The wiring stays sound when one gate is appended whose copied inputs
    /// are wires of the circuit brought in by new edges, in order, and whose
    /// outputs are the next wires of field `f`.
    proof fn lemma_wires_step(old: CircuitSpec, new: CircuitSpec, f: PastaFieldId)
        requires
            old.wf_core(),
            old.wires_ok(),
            new.nodes() == old.nodes().push(new.nodes().last()),
            old.edges().len() + edged_inputs(new.nodes().last()).len() <= new.edges().len(),
            forall|e: int| 0 <= e < old.edges().len() ==> new.edges()[e] == old.edges()[e],
            forall|k: int|
                0 <= k < edged_inputs(new.nodes().last()).len() ==> produced(
                    old.nodes(),
                    #[trigger] edged_inputs(new.nodes().last())[k],
                ) && new.edges()[old.edges().len() + k] == edge_of(
                    edged_inputs(new.nodes().last())[k],
                    old.nodes().len() as int,
                ),
            forall|k: int|
                0 <= k < outputs(new.nodes().last()).len() ==> CircuitSpec::fresh(
                    old,
                    f,
                    k,
                    #[trigger] outputs(new.nodes().last())[k],
                ),
            old.output_wire_count[0] <= new.output_wire_count[0],
            old.output_wire_count[1] <= new.output_wire_count[1],
            new.nodes().last() matches GateType::Output(a, _, k) ==> k == old.output_wire_count[a[0].fid.spec_idx()]
                && k < new.output_wire_count[a[0].fid.spec_idx()],
        ensures
            new.wires_ok(),
    {
        let nodes0 = old.nodes();
        let nodes1 = new.nodes();
        let n = nodes0.len() as int;
        let g = nodes1.last();
        assert forall|i: int| 0 <= i < n implies #[trigger] nodes1[i] == nodes0[i] by {}
        assert forall|i: int| 0 <= i < nodes1.len() implies (#[trigger] nodes1[i] matches GateType::Output(a, _, k)
            ==> k < new.output_wire_count[a[0].fid.spec_idx()]) by {
            if i < n {
                assert(nodes1[i] == nodes0[i]);
                assert(nodes0[i] matches GateType::Output(a, _, k) ==> k < old.output_wire_count[a[0].fid.spec_idx()]);
                if let GateType::Output(a, _, k) = nodes0[i] {
                    assert(a[0].fid.spec_idx() == 0 || a[0].fid.spec_idx() == 1);
                }
            }
        }
        assert forall|i: int, j: int| 0 <= i < nodes1.len() && 0 <= j < nodes1.len() && i != j implies output_slots_differ(
            #[trigger] nodes1[i],
            #[trigger] nodes1[j],
        ) by {
            if i < n && j < n {
                assert(nodes1[i] == nodes0[i] && nodes1[j] == nodes0[j]);
                assert(output_slots_differ(nodes0[i], nodes0[j]));
            } else if i < n {
                assert(nodes1[i] == nodes0[i]);
                assert(nodes0[i] matches GateType::Output(a, _, k) ==> k < old.output_wire_count[a[0].fid.spec_idx()]);
            } else if j < n {
                assert(nodes1[j] == nodes0[j]);
                assert(nodes0[j] matches GateType::Output(a, _, k) ==> k < old.output_wire_count[a[0].fid.spec_idx()]);
            }
        }
        assert forall|i: int, k: int|
            0 <= i < nodes1.len() && 0 <= k < edged_inputs(nodes1[i]).len() implies produced(
                nodes1,
                #[trigger] edged_inputs(nodes1[i])[k],
            ) && has_edge(new.edges(), edged_inputs(nodes1[i])[k], i) by {
            let w = edged_inputs(nodes1[i])[k];
            if i < n {
                assert(nodes1[i] == nodes0[i]);
                assert(produced(nodes0, w) && has_edge(old.edges(), w, i));
                let e = choose|e: int| 0 <= e < old.edges().len() && #[trigger] old.edges()[e] == (w.node_idx as int, i, w);
                assert(new.edges()[e] == old.edges()[e]);
                assert(nodes1[w.node_idx as int] == nodes0[w.node_idx as int]);
            } else {
                assert(nodes1[i] == g);
                assert(produced(nodes0, w));
                assert(nodes1[w.node_idx as int] == nodes0[w.node_idx as int]);
                assert(new.edges()[old.edges().len() + k] == edge_of(w, n));
            }
        }
        assert forall|i: int, k: int|
            0 <= i < nodes1.len() && 0 <= k < outputs(nodes1[i]).len() implies (#[trigger] outputs(
                nodes1[i],
            )[k]).output_id == k by {
            if i < n {
                assert(nodes1[i] == nodes0[i]);
            }
        }
        assert forall|i: int, k: int, j: int, l: int|
            #![trigger outputs(nodes1[i])[k], outputs(nodes1[j])[l]]
            0 <= i < nodes1.len() && 0 <= k < outputs(nodes1[i]).len() && 0 <= j < nodes1.len() && 0 <= l < outputs(
                nodes1[j],
            ).len() && outputs(nodes1[i])[k].id == outputs(nodes1[j])[l].id && outputs(nodes1[i])[k].fid == outputs(
                nodes1[j],
            )[l].fid implies i == j && k == l by {
            if i < n && j < n {
                assert(nodes1[i] == nodes0[i] && nodes1[j] == nodes0[j]);
                assert(outputs(nodes0[i])[k] == outputs(nodes1[i])[k]);
                assert(outputs(nodes0[j])[l] == outputs(nodes1[j])[l]);
            } else if i < n {
                assert(nodes1[i] == nodes0[i]);
                lemma_outputs_placed(nodes0[i], i, old.wire_count);
                assert(outputs(nodes0[i])[k] == outputs(nodes1[i])[k]);
                assert(CircuitSpec::fresh(old, f, l, outputs(g)[l]));
            } else if j < n {
                assert(nodes1[j] == nodes0[j]);
                lemma_outputs_placed(nodes0[j], j, old.wire_count);
                assert(outputs(nodes0[j])[l] == outputs(nodes1[j])[l]);
                assert(CircuitSpec::fresh(old, f, k, outputs(g)[k]));
            } else {
                assert(CircuitSpec::fresh(old, f, k, outputs(g)[k]));
                assert(CircuitSpec::fresh(old, f, l, outputs(g)[l]));
            }
        }
    }

    /// The next wire of field `fid`, as an output of the next node.
    fn new_wire(&mut self, fid: PastaFieldId, output_id: u32) -> (w: Wire)
        requires
            old(self).wire_count[fid.spec_idx()] < usize::MAX,
        ensures
            w.id == old(self).wire_count[fid.spec_idx()],
            w.node_idx == old(self).nodes().len(),
            w.output_id == output_id,
            w.fid == fid,
            final(self).graph == old(self).graph,
            final(self).counted(*old(self), fid, 1, 0),
            final(self).witness_wire_count == old(self).witness_wire_count,
            final(self).public_input_wire_count == old(self).public_input_wire_count,
            final(self).message_pass_wire_count == old(self).message_pass_wire_count,
            final(self).output_wire_count == old(self).output_wire_count,
    {
        let k = fid.idx();
        let id = self.wire_count[k];
        let node_idx = graph_node_count(&self.graph);
        self.wire_count[k] = self.wire_count[k] + 1;
        Wire { id, fid, node_idx, output_id }
    }

    fn new_without_zero_one() -> (r: Self)
        ensures
            r.wf_core(),
            r.nodes().len() == 0,
            r.wire_count == [0usize, 0usize],
            r.row_count == [0usize, 0usize],
            r.witness_wire_count == [0usize, 0usize],
            r.public_input_wire_count == [0usize, 0usize],
            r.message_pass_wire_count == [0usize, 0usize],
            r.output_wire_count == [0usize, 0usize],
            r.counts_ok(),
    {
        let dummy_wire = Wire { id: 0, fid: PastaFieldId::Fp, node_idx: 0, output_id: 0 };
        let r = Self {
            graph: graph_new(),
            zero: [dummy_wire, dummy_wire],
            one: [dummy_wire, dummy_wire],
            public_input_wire_count: [0, 0],
            message_pass_wire_count: [0, 0],
            witness_wire_count: [0, 0],
            output_wire_count: [0, 0],
            wire_count: [0, 0],
            row_count: [0, 0],
        };
        proof {
            assert(public_input_nodes(r.nodes(), PastaFieldId::Fp) =~= Set::empty());
            assert(public_input_nodes(r.nodes(), PastaFieldId::Fq) =~= Set::empty());
            assert(message_pass_nodes(r.nodes()) =~= Set::empty());
        }
        r
    }
}

impl CircuitSpec {
    /// The counters other than wires and rows are those of `old`.
    pub open spec fn same_counts(self, old: CircuitSpec) -> bool {
        &&& self.witness_wire_count == old.witness_wire_count
        &&& self.public_input_wire_count == old.public_input_wire_count
        &&& self.message_pass_wire_count == old.message_pass_wire_count
        &&& self.output_wire_count == old.output_wire_count
    }

    /// A new witness wire of field `fid`.
    pub fn witness(&mut self, fid: PastaFieldId) -> (w: Wire)
        requires
            old(self).wf_core(),
            old(self).has_room(fid, 1, 0, 1, 0),
            old(self).witness_wire_count[fid.spec_idx()] < usize::MAX,
        ensures
            final(self).wf_core(),
            old(self).units_ok() ==> final(self).units_ok(),
            old(self).counts_ok() ==> final(self).counts_ok(),
            old(self).wires_ok() ==> final(self).wires_ok(),
            CircuitSpec::fresh(*old(self), fid, 0, w),
            final(self).nodes() == old(self).nodes().push(GateType::Witness((), [w])),
            final(self).edges() == old(self).edges(),
            final(self).counted(*old(self), fid, 1, 0),
            final(self).witness_wire_count[fid.spec_idx()] == old(self).witness_wire_count[fid.spec_idx()] + 1,
            final(self).witness_wire_count[fid.other().spec_idx()] == old(self).witness_wire_count[fid.other().spec_idx()],
            final(self).public_input_wire_count == old(self).public_input_wire_count,
            final(self).message_pass_wire_count == old(self).message_pass_wire_count,
            final(self).output_wire_count == old(self).output_wire_count,
    {
        let ghost start = *self;
        let k = fid.idx();
        self.witness_wire_count[k] = self.witness_wire_count[k] + 1;
        let w = self.new_wire(fid, 0);
        let _node = graph_add_node(&mut self.graph, GateType::Witness((), [w]));
        proof {
            Self::lemma_grow(start, *self);
            if start.counts_ok() {
                Self::lemma_counts_step(start, *self);
            }
            if start.wires_ok() {
                Self::lemma_wires_step(start, *self, fid);
            }
        }
        w
    }

    /// A new public-input wire of field `fid`, taking one row.
    pub fn public_input(&mut self, fid: PastaFieldId) -> (w: Wire)
        requires
            old(self).wf_core(),
            old(self).has_room(fid, 1, 0, 1, 1),
            old(self).public_input_wire_count[fid.spec_idx()] < usize::MAX,
        ensures
            final(self).wf_core(),
            old(self).units_ok() ==> final(self).units_ok(),
            old(self).counts_ok() ==> final(self).counts_ok(),
            old(self).wires_ok() ==> final(self).wires_ok(),
            CircuitSpec::fresh(*old(self), fid, 0, w),
            final(self).nodes() == old(self).nodes().push(GateType::PublicInput((), [w])),
            final(self).edges() == old(self).edges(),
            final(self).counted(*old(self), fid, 1, 1),
            final(self).public_input_wire_count[fid.spec_idx()] == old(self).public_input_wire_count[fid.spec_idx()] + 1,
            final(self).public_input_wire_count[fid.other().spec_idx()] == old(self).public_input_wire_count[fid.other().spec_idx()],
            final(self).witness_wire_count == old(self).witness_wire_count,
            final(self).message_pass_wire_count == old(self).message_pass_wire_count,
            final(self).output_wire_count == old(self).output_wire_count,
    {
        let ghost start = *self;
        let k = fid.idx();
        self.public_input_wire_count[k] = self.public_input_wire_count[k] + 1;
        self.row_count[k] = self.row_count[k] + 1;
        let w = self.new_wire(fid, 0);
        let _node = graph_add_node(&mut self.graph, GateType::PublicInput((), [w]));
        proof {
            Self::lemma_grow(start, *self);
            if start.counts_ok() {
                Self::lemma_counts_step(start, *self);
            }
            if start.wires_ok() {
                Self::lemma_wires_step(start, *self, fid);
            }
        }
        w
    }

    /// A new witness wire of `Fp`.
    pub fn fp_witness(&mut self) -> (w: Wire)
        requires
            old(self).wf_core(),
            old(self).has_room(PastaFieldId::Fp, 1, 0, 1, 0),
            old(self).witness_wire_count[0] < usize::MAX,
        ensures
            final(self).wf_core(),
            old(self).units_ok() ==> final(self).units_ok(),
            old(self).counts_ok() ==> final(self).counts_ok(),
            old(self).wires_ok() ==> final(self).wires_ok(),
            CircuitSpec::fresh(*old(self), PastaFieldId::Fp, 0, w),
            final(self).nodes() == old(self).nodes().push(GateType::Witness((), [w])),
    {
        self.witness(PastaFieldId::Fp)
    }

    /// A new witness wire of `Fq`.
    pub fn fq_witness(&mut self) -> (w: Wire)
        requires
            old(self).wf_core(),
            old(self).has_room(PastaFieldId::Fq, 1, 0, 1, 0),
            old(self).witness_wire_count[1] < usize::MAX,
        ensures
            final(self).wf_core(),
            old(self).units_ok() ==> final(self).units_ok(),
            old(self).counts_ok() ==> final(self).counts_ok(),
            old(self).wires_ok() ==> final(self).wires_ok(),
            CircuitSpec::fresh(*old(self), PastaFieldId::Fq, 0, w),
            final(self).nodes() == old(self).nodes().push(GateType::Witness((), [w])),
    {
        self.witness(PastaFieldId::Fq)
    }

    /// A new public-input wire of `Fp`.
    pub fn fp_public_input(&mut self) -> (w: Wire)
        requires
            old(self).wf_core(),
            old(self).has_room(PastaFieldId::Fp, 1, 0, 1, 1),
            old(self).public_input_wire_count[0] < usize::MAX,
        ensures
            final(self).wf_core(),
            old(self).units_ok() ==> final(self).units_ok(),
            old(self).counts_ok() ==> final(self).counts_ok(),
            old(self).wires_ok() ==> final(self).wires_ok(),
            CircuitSpec::fresh(*old(self), PastaFieldId::Fp, 0, w),
            final(self).nodes() == old(self).nodes().push(GateType::PublicInput((), [w])),
    {
        self.public_input(PastaFieldId::Fp)
    }

    /// A new public-input wire of `Fq`.
    pub fn fq_public_input(&mut self) -> (w: Wire)
        requires
            old(self).wf_core(),
            old(self).has_room(PastaFieldId::Fq, 1, 0, 1, 1),
            old(self).public_input_wire_count[1] < usize::MAX,
        ensures
            final(self).wf_core(),
            old(self).units_ok() ==> final(self).units_ok(),
            old(self).counts_ok() ==> final(self).counts_ok(),
            old(self).wires_ok() ==> final(self).wires_ok(),
            CircuitSpec::fresh(*old(self), PastaFieldId::Fq, 0, w),
            final(self).nodes() == old(self).nodes().push(GateType::PublicInput((), [w])),
    {
        self.public_input(PastaFieldId::Fq)
    }

    /// A wire carrying the constant `c`, in the field `c` is tagged with;
    /// it takes one row.
    pub fn constant(&mut self, c: PastaFE) -> (w: Wire)
        requires
            old(self).wf_core(),
            c.fid is Some,
            c.in_field(c.fid.unwrap()),
            old(self).has_room(c.fid.unwrap(), 1, 0, 1, 1),
        ensures
            final(self).wf_core(),
            old(self).units_ok() ==> final(self).units_ok(),
            old(self).counts_ok() ==> final(self).counts_ok(),
            old(self).wires_ok() ==> final(self).wires_ok(),
            CircuitSpec::fresh(*old(self), c.fid.unwrap(), 0, w),
            final(self).nodes() == old(self).nodes().push(GateType::Constant((), [w], c)),
            final(self).edges() == old(self).edges(),
            final(self).counted(*old(self), c.fid.unwrap(), 1, 1),
            final(self).same_counts(*old(self)),
    {
        let ghost start = *self;
        let fid = match c.fid {
            Some(f) => f,
            None => {
                proof { assert(false); }
                PastaFieldId::Fp
            },
        };
        let k = fid.idx();
        self.row_count[k] = self.row_count[k] + 1;
        let w = self.new_wire(fid, 0);
        let _node = graph_add_node(&mut self.graph, GateType::Constant((), [w], c));
        proof {
            Self::lemma_grow(start, *self);
            if start.counts_ok() {
                Self::lemma_counts_step(start, *self);
            }
            if start.wires_ok() {
                Self::lemma_wires_step(start, *self, fid);
            }
        }
        w
    }

    /// A circuit holding only the constants zero and one of both fields, in
    /// the order zero and one of `Fp`, then zero and one of `Fq`; `zero` and
    /// `one` name their wires.
    pub fn new() -> (r: Self)
        ensures
            r.wf(),
            r.nodes().len() == 4,
            r.wire_count == [2usize, 2usize],
            r.row_count == [2usize, 2usize],
            r.witness_wire_count == [0usize, 0usize],
            r.public_input_wire_count == [0usize, 0usize],
            r.message_pass_wire_count == [0usize, 0usize],
            r.output_wire_count == [0usize, 0usize],
            r.nodes()[0] == GateType::Constant((), [r.zero[0]], unit_constant(0, PastaFieldId::Fp)),
            r.nodes()[1] == GateType::Constant((), [r.one[0]], unit_constant(1, PastaFieldId::Fp)),
            r.nodes()[2] == GateType::Constant((), [r.zero[1]], unit_constant(0, PastaFieldId::Fq)),
            r.nodes()[3] == GateType::Constant((), [r.one[1]], unit_constant(1, PastaFieldId::Fq)),
    {
        let mut spec = Self::new_without_zero_one();
        let fp_zero = spec.constant(PastaFE::zero(Some(PastaFieldId::Fp)));
        let fp_one = spec.constant(PastaFE::one(Some(PastaFieldId::Fp)));
        let fq_zero = spec.constant(PastaFE::zero(Some(PastaFieldId::Fq)));
        let fq_one = spec.constant(PastaFE::one(Some(PastaFieldId::Fq)));
        spec.zero = [fp_zero, fq_zero];
        spec.one = [fp_one, fq_one];
        proof {
            assert(spec.valid_wire(spec.zero[0]));
            assert(spec.valid_wire(spec.zero[1]));
            assert(spec.valid_wire(spec.one[0]));
            assert(spec.valid_wire(spec.one[1]));
        }
        spec
    }

    /// Whether no wire has been made in either field.
    pub fn is_empty(&self) -> (r: bool)
        ensures
            r == (self.wire_count[0] == 0 && self.wire_count[1] == 0),
    {
        self.wire_count[0] == 0 && self.wire_count[1] == 0
    }
}

/// The constant `v` (zero or one) tagged with field `f`.
pub open spec fn unit_constant(v: u64, f: PastaFieldId) -> PastaFE {
    PastaFE { inner: [v, 0u64, 0u64, 0u64], is_neg_one: false, fid: Some(f) }
}

/// The edge that carries wire `w` into node `b`.
pub open spec fn edge_of(w: Wire, b: int) -> (int, int, Wire) {
    (w.node_idx as int, b, w)
}

impl CircuitSpec {
    /// A wire carrying the sum of two wires of one field; it takes one row.
    pub fn add(&mut self, left: Wire, right: Wire) -> (w: Wire)
        requires
            old(self).wf(),
            old(self).valid_wire(left),
            old(self).valid_wire(right),
            right.fid == left.fid,
            old(self).has_room(left.fid, 1, 2, 1, 1),
        ensures
            final(self).wf(),
            CircuitSpec::fresh(*old(self), left.fid, 0, w),
            final(self).nodes() == old(self).nodes().push(GateType::Add([left, right], [w])),
            final(self).edges() == old(self).edges().push(edge_of(left, old(self).nodes().len() as int)).push(
                edge_of(right, old(self).nodes().len() as int),
            ),
            final(self).counted(*old(self), left.fid, 1, 1),
            final(self).same_counts(*old(self)),
    {
        let ghost start = *self;
        let fid = left.fid;
        let k = fid.idx();
        self.row_count[k] = self.row_count[k] + 1;
        let out = self.new_wire(fid, 0);
        let node = graph_add_node(&mut self.graph, GateType::Add([left, right], [out]));
        graph_add_edge(&mut self.graph, left.node_idx, node, left);
        graph_add_edge(&mut self.graph, right.node_idx, node, right);
        proof {
            lemma_wire_ok_mono(left, start.wire_count, start.nodes().len() as int, self.wire_count, node as int);
            lemma_wire_ok_mono(right, start.wire_count, start.nodes().len() as int, self.wire_count, node as int);
            Self::lemma_grow(start, *self);
            if start.counts_ok() {
                Self::lemma_counts_step(start, *self);
            }
            if start.wires_ok() {
                Self::lemma_wires_step(start, *self, fid);
            }
        }
        out
    }

    /// A wire carrying the product of two wires of one field; it takes one row.
    pub fn mul(&mut self, left: Wire, right: Wire) -> (w: Wire)
        requires
            old(self).wf(),
            old(self).valid_wire(left),
            old(self).valid_wire(right),
            right.fid == left.fid,
            old(self).has_room(left.fid, 1, 2, 1, 1),
        ensures
            final(self).wf(),
            CircuitSpec::fresh(*old(self), left.fid, 0, w),
            final(self).nodes() == old(self).nodes().push(GateType::Multiply([left, right], [w])),
            final(self).edges() == old(self).edges().push(edge_of(left, old(self).nodes().len() as int)).push(
                edge_of(right, old(self).nodes().len() as int),
            ),
            final(self).counted(*old(self), left.fid, 1, 1),
            final(self).same_counts(*old(self)),
    {
        let ghost start = *self;
        let fid = left.fid;
        let k = fid.idx();
        self.row_count[k] = self.row_count[k] + 1;
        let out = self.new_wire(fid, 0);
        let node = graph_add_node(&mut self.graph, GateType::Multiply([left, right], [out]));
        graph_add_edge(&mut self.graph, left.node_idx, node, left);
        graph_add_edge(&mut self.graph, right.node_idx, node, right);
        proof {
            lemma_wire_ok_mono(left, start.wire_count, start.nodes().len() as int, self.wire_count, node as int);
            lemma_wire_ok_mono(right, start.wire_count, start.nodes().len() as int, self.wire_count, node as int);
            Self::lemma_grow(start, *self);
            if start.counts_ok() {
                Self::lemma_counts_step(start, *self);
            }
            if start.wires_ok() {
                Self::lemma_wires_step(start, *self, fid);
            }
        }
        out
    }

    /// A wire carrying the negation of `x`, checked against the zero wire of its field; it takes one row.
    pub fn neg_gate(&mut self, x: Wire) -> (w: Wire)
        requires
            old(self).wf(),
            old(self).valid_wire(x),
            old(self).has_room(x.fid, 1, 2, 1, 1),
        ensures
            final(self).wf(),
            CircuitSpec::fresh(*old(self), x.fid, 0, w),
            final(self).nodes() == old(self).nodes().push(
                GateType::Negate([x, old(self).zero[x.fid.spec_idx()]], [w]),
            ),
            final(self).edges() == old(self).edges().push(edge_of(x, old(self).nodes().len() as int)).push(
                edge_of(old(self).zero[x.fid.spec_idx()], old(self).nodes().len() as int),
            ),
            final(self).counted(*old(self), x.fid, 1, 1),
            final(self).same_counts(*old(self)),
    {
        let ghost start = *self;
        let fid = x.fid;
        let k = fid.idx();
        let u = self.zero[k];
        proof { assert(start.valid_wire(start.zero[fid.spec_idx()])); }
        self.row_count[k] = self.row_count[k] + 1;
        let out = self.new_wire(fid, 0);
        let node = graph_add_node(&mut self.graph, GateType::Negate([x, u], [out]));
        graph_add_edge(&mut self.graph, x.node_idx, node, x);
        graph_add_edge(&mut self.graph, u.node_idx, node, u);
        proof {
            lemma_wire_ok_mono(x, start.wire_count, start.nodes().len() as int, self.wire_count, node as int);
            lemma_wire_ok_mono(u, start.wire_count, start.nodes().len() as int, self.wire_count, node as int);
            Self::lemma_grow(start, *self);
            if start.counts_ok() {
                Self::lemma_counts_step(start, *self);
            }
            if start.wires_ok() {
                Self::lemma_wires_step(start, *self, fid);
            }
        }
        out
    }

    /// A wire carrying the inverse of `x`, checked against the one wire of its field; it takes one row.
    pub fn inv(&mut self, x: Wire) -> (w: Wire)
        requires
            old(self).wf(),
            old(self).valid_wire(x),
            old(self).has_room(x.fid, 1, 2, 1, 1),
        ensures
            final(self).wf(),
            CircuitSpec::fresh(*old(self), x.fid, 0, w),
            final(self).nodes() == old(self).nodes().push(
                GateType::Invert([x, old(self).one[x.fid.spec_idx()]], [w]),
            ),
            final(self).edges() == old(self).edges().push(edge_of(x, old(self).nodes().len() as int)).push(
                edge_of(old(self).one[x.fid.spec_idx()], old(self).nodes().len() as int),
            ),
            final(self).counted(*old(self), x.fid, 1, 1),
            final(self).same_counts(*old(self)),
    {
        let ghost start = *self;
        let fid = x.fid;
        let k = fid.idx();
        let u = self.one[k];
        proof { assert(start.valid_wire(start.one[fid.spec_idx()])); }
        self.row_count[k] = self.row_count[k] + 1;
        let out = self.new_wire(fid, 0);
        let node = graph_add_node(&mut self.graph, GateType::Invert([x, u], [out]));
        graph_add_edge(&mut self.graph, x.node_idx, node, x);
        graph_add_edge(&mut self.graph, u.node_idx, node, u);
        proof {
            lemma_wire_ok_mono(x, start.wire_count, start.nodes().len() as int, self.wire_count, node as int);
            lemma_wire_ok_mono(u, start.wire_count, start.nodes().len() as int, self.wire_count, node as int);
            Self::lemma_grow(start, *self);
            if start.counts_ok() {
                Self::lemma_counts_step(start, *self);
            }
            if start.wires_ok() {
                Self::lemma_wires_step(start, *self, fid);
            }
        }
        out
    }

}

impl CircuitSpec {
    /// A gate asserting that two wires of one field carry equal values.
    pub fn assert_eq_gate(&mut self, left: Wire, right: Wire)
        requires
            old(self).wf(),
            old(self).valid_wire(left),
            old(self).valid_wire(right),
            left.fid == right.fid,
            old(self).has_room(left.fid, 1, 2, 0, 0),
        ensures
            final(self).wf(),
            final(self).nodes() == old(self).nodes().push(GateType::AssertEq([left, right], ())),
            final(self).edges() == old(self).edges().push(edge_of(left, old(self).nodes().len() as int)).push(
                edge_of(right, old(self).nodes().len() as int),
            ),
            final(self).counted(*old(self), left.fid, 0, 0),
            final(self).same_counts(*old(self)),
    {
        let ghost start = *self;
        let node = graph_add_node(&mut self.graph, GateType::AssertEq([left, right], ()));
        graph_add_edge(&mut self.graph, left.node_idx, node, left);
        graph_add_edge(&mut self.graph, right.node_idx, node, right);
        proof {
            Self::lemma_grow(start, *self);
            if start.counts_ok() {
                Self::lemma_counts_step(start, *self);
            }
            if start.wires_ok() {
                Self::lemma_wires_step(start, *self, left.fid);
            }
        }
    }

    /// Five rounds of the Poseidon permutation on three wires of one field,
    /// with the fifteen round constants of those rounds; it takes one row.
    pub fn poseidon(&mut self, in_wires: [Wire; 3], round_constants: [PastaFE; 15]) -> (w: [Wire; 3])
        requires
            old(self).wf(),
            forall|k: int| 0 <= k < 3 ==> old(self).valid_wire(#[trigger] in_wires[k]) && in_wires[k].fid == in_wires[0].fid,
            forall|k: int| 0 <= k < 15 ==> (#[trigger] round_constants[k]).in_field(in_wires[0].fid),
            old(self).has_room(in_wires[0].fid, 1, 3, 3, 1),
        ensures
            final(self).wf(),
            forall|k: int| 0 <= k < 3 ==> CircuitSpec::fresh(*old(self), in_wires[0].fid, k, #[trigger] w[k]),
            final(self).nodes() == old(self).nodes().push(GateType::Poseidon(in_wires, w, round_constants)),
            final(self).edges() == old(self).edges().push(edge_of(in_wires[0], old(self).nodes().len() as int)).push(
                edge_of(in_wires[1], old(self).nodes().len() as int),
            ).push(edge_of(in_wires[2], old(self).nodes().len() as int)),
            final(self).counted(*old(self), in_wires[0].fid, 3, 1),
            final(self).same_counts(*old(self)),
    {
        let ghost start = *self;
        let fid = in_wires[0].fid;
        let k = fid.idx();
        self.row_count[k] = self.row_count[k] + 1;
        let o0 = self.new_wire(fid, 0);
        let o1 = self.new_wire(fid, 1);
        let o2 = self.new_wire(fid, 2);
        let out_wires = [o0, o1, o2];
        let node = graph_add_node(&mut self.graph, GateType::Poseidon(in_wires, out_wires, round_constants));
        graph_add_edge(&mut self.graph, in_wires[0].node_idx, node, in_wires[0]);
        graph_add_edge(&mut self.graph, in_wires[1].node_idx, node, in_wires[1]);
        graph_add_edge(&mut self.graph, in_wires[2].node_idx, node, in_wires[2]);
        proof {
            assert forall|j: int| 0 <= j < 3 implies wire_ok(#[trigger] in_wires[j], self.wire_count, node as int) by {
                lemma_wire_ok_mono(in_wires[j], start.wire_count, start.nodes().len() as int, self.wire_count, node as int);
            }
            Self::lemma_grow(start, *self);
            if start.counts_ok() {
                Self::lemma_counts_step(start, *self);
            }
            if start.wires_ok() {
                Self::lemma_wires_step(start, *self, fid);
            }
        }
        out_wires
    }

    /// The final round of the Poseidon permutation on three wires of one
    /// field; it takes one row.
    pub fn poseidon_finish(&mut self, in_wires: [Wire; 3]) -> (w: [Wire; 3])
        requires
            old(self).wf(),
            forall|k: int| 0 <= k < 3 ==> old(self).valid_wire(#[trigger] in_wires[k]) && in_wires[k].fid == in_wires[0].fid,
            old(self).has_room(in_wires[0].fid, 1, 3, 3, 1),
        ensures
            final(self).wf(),
            forall|k: int| 0 <= k < 3 ==> CircuitSpec::fresh(*old(self), in_wires[0].fid, k, #[trigger] w[k]),
            final(self).nodes() == old(self).nodes().push(GateType::PoseidonEnd(in_wires, w)),
            final(self).edges() == old(self).edges().push(edge_of(in_wires[0], old(self).nodes().len() as int)).push(
                edge_of(in_wires[1], old(self).nodes().len() as int),
            ).push(edge_of(in_wires[2], old(self).nodes().len() as int)),
            final(self).counted(*old(self), in_wires[0].fid, 3, 1),
            final(self).same_counts(*old(self)),
    {
        let ghost start = *self;
        let fid = in_wires[0].fid;
        let k = fid.idx();
        self.row_count[k] = self.row_count[k] + 1;
        let o0 = self.new_wire(fid, 0);
        let o1 = self.new_wire(fid, 1);
        let o2 = self.new_wire(fid, 2);
        let out_wires = [o0, o1, o2];
        let node = graph_add_node(&mut self.graph, GateType::PoseidonEnd(in_wires, out_wires));
        graph_add_edge(&mut self.graph, in_wires[0].node_idx, node, in_wires[0]);
        graph_add_edge(&mut self.graph, in_wires[1].node_idx, node, in_wires[1]);
        graph_add_edge(&mut self.graph, in_wires[2].node_idx, node, in_wires[2]);
        proof {
            assert forall|j: int| 0 <= j < 3 implies wire_ok(#[trigger] in_wires[j], self.wire_count, node as int) by {
                lemma_wire_ok_mono(in_wires[j], start.wire_count, start.nodes().len() as int, self.wire_count, node as int);
            }
            Self::lemma_grow(start, *self);
            if start.counts_ok() {
                Self::lemma_counts_step(start, *self);
            }
            if start.wires_ok() {
                Self::lemma_wires_step(start, *self, fid);
            }
        }
        out_wires
    }

    /// The sum of the affine points `p` and `q`, given by their coordinate
    /// wires in one field; it takes one row.
    pub fn add_points(&mut self, p: (Wire, Wire), q: (Wire, Wire)) -> (w: (Wire, Wire))
        requires
            old(self).wf(),
            old(self).valid_wire(p.0),
            old(self).valid_wire(p.1),
            old(self).valid_wire(q.0),
            old(self).valid_wire(q.1),
            p.1.fid == p.0.fid && q.0.fid == p.0.fid && q.1.fid == p.0.fid,
            old(self).has_room(p.0.fid, 1, 4, 2, 1),
        ensures
            final(self).wf(),
            CircuitSpec::fresh(*old(self), p.0.fid, 0, w.0),
            CircuitSpec::fresh(*old(self), p.0.fid, 1, w.1),
            final(self).nodes() == old(self).nodes().push(GateType::AffineAdd([p.0, p.1, q.0, q.1], [w.0, w.1])),
            final(self).edges().len() == old(self).edges().len() + 4,
            final(self).counted(*old(self), p.0.fid, 2, 1),
            final(self).same_counts(*old(self)),
    {
        let ghost start = *self;
        let fid = p.0.fid;
        let k = fid.idx();
        self.row_count[k] = self.row_count[k] + 1;
        let in_wires = [p.0, p.1, q.0, q.1];
        let o0 = self.new_wire(fid, 0);
        let o1 = self.new_wire(fid, 1);
        let node = graph_add_node(&mut self.graph, GateType::AffineAdd(in_wires, [o0, o1]));
        graph_add_edge(&mut self.graph, in_wires[0].node_idx, node, in_wires[0]);
        graph_add_edge(&mut self.graph, in_wires[1].node_idx, node, in_wires[1]);
        graph_add_edge(&mut self.graph, in_wires[2].node_idx, node, in_wires[2]);
        graph_add_edge(&mut self.graph, in_wires[3].node_idx, node, in_wires[3]);
        proof {
            assert forall|j: int| 0 <= j < 4 implies wire_ok(#[trigger] in_wires[j], self.wire_count, node as int) by {
                lemma_wire_ok_mono(in_wires[j], start.wire_count, start.nodes().len() as int, self.wire_count, node as int);
            }
            Self::lemma_grow(start, *self);
            if start.counts_ok() {
                Self::lemma_counts_step(start, *self);
            }
            if start.wires_ok() {
                Self::lemma_wires_step(start, *self, fid);
            }
        }
        (o0, o1)
    }

    /// The scalar multiple of the point `point` by the scalar given as its
    /// high part and low bit, all wires of one field; it takes 257 rows.
    pub fn scalar_mul(&mut self, scalar: (Wire, Wire), point: (Wire, Wire)) -> (w: (Wire, Wire))
        requires
            old(self).wf(),
            old(self).valid_wire(scalar.0),
            old(self).valid_wire(scalar.1),
            old(self).valid_wire(point.0),
            old(self).valid_wire(point.1),
            scalar.0.fid == point.0.fid && scalar.1.fid == point.0.fid && point.1.fid == point.0.fid,
            old(self).has_room(point.0.fid, 1, 4, 2, 257),
        ensures
            final(self).wf(),
            CircuitSpec::fresh(*old(self), point.0.fid, 0, w.0),
            CircuitSpec::fresh(*old(self), point.0.fid, 1, w.1),
            final(self).nodes() == old(self).nodes().push(
                GateType::ScalarMul([scalar.0, scalar.1, point.0, point.1], [w.0, w.1]),
            ),
            final(self).edges() == old(self).edges().push(edge_of(scalar.0, old(self).nodes().len() as int)).push(
                edge_of(scalar.1, old(self).nodes().len() as int),
            ).push(edge_of(point.0, old(self).nodes().len() as int)).push(
                edge_of(point.1, old(self).nodes().len() as int),
            ),
            final(self).counted(*old(self), point.0.fid, 2, 257),
            final(self).same_counts(*old(self)),
    {
        let ghost start = *self;
        let fid = point.0.fid;
        let k = fid.idx();
        self.row_count[k] = self.row_count[k] + 257;
        let o0 = self.new_wire(fid, 0);
        let o1 = self.new_wire(fid, 1);
        let in_wires = [scalar.0, scalar.1, point.0, point.1];
        let node = graph_add_node(&mut self.graph, GateType::ScalarMul(in_wires, [o0, o1]));
        graph_add_edge(&mut self.graph, scalar.0.node_idx, node, scalar.0);
        graph_add_edge(&mut self.graph, scalar.1.node_idx, node, scalar.1);
        graph_add_edge(&mut self.graph, point.0.node_idx, node, point.0);
        graph_add_edge(&mut self.graph, point.1.node_idx, node, point.1);
        proof {
            assert forall|j: int| 0 <= j < 4 implies wire_ok(#[trigger] in_wires[j], self.wire_count, node as int) by {
                lemma_wire_ok_mono(in_wires[j], start.wire_count, start.nodes().len() as int, self.wire_count, node as int);
            }
            Self::lemma_grow(start, *self);
            if start.counts_ok() {
                Self::lemma_counts_step(start, *self);
            }
            if start.wires_ok() {
                Self::lemma_wires_step(start, *self, fid);
            }
        }
        (o0, o1)
    }

    /// Passes an `Fp` wire to `Fq` as two wires: its value without the lowest
    /// bit, halved, and its lowest bit. It takes two `Fq` rows.
    pub fn fp_message_pass(&mut self, input: Wire) -> (w: (Wire, Wire))
        requires
            old(self).wf(),
            old(self).valid_wire(input),
            input.fid == PastaFieldId::Fp,
            old(self).has_room(PastaFieldId::Fq, 1, 1, 2, 2),
            old(self).message_pass_wire_count[1] + 2 <= usize::MAX,
        ensures
            final(self).wf(),
            CircuitSpec::fresh(*old(self), PastaFieldId::Fq, 0, w.0),
            CircuitSpec::fresh(*old(self), PastaFieldId::Fq, 1, w.1),
            final(self).nodes() == old(self).nodes().push(GateType::FpMessagePass([input], [w.0, w.1])),
            final(self).edges() == old(self).edges().push(edge_of(input, old(self).nodes().len() as int)),
            final(self).counted(*old(self), PastaFieldId::Fq, 2, 2),
            final(self).message_pass_wire_count[1] == old(self).message_pass_wire_count[1] + 2,
            final(self).message_pass_wire_count[0] == old(self).message_pass_wire_count[0],
            final(self).witness_wire_count == old(self).witness_wire_count,
            final(self).public_input_wire_count == old(self).public_input_wire_count,
            final(self).output_wire_count == old(self).output_wire_count,
    {
        let ghost start = *self;
        let fid = input.fid.inv();
        let k = fid.idx();
        self.message_pass_wire_count[k] = self.message_pass_wire_count[k] + 2;
        self.row_count[k] = self.row_count[k] + 2;
        let o0 = self.new_wire(fid, 0);
        let o1 = self.new_wire(fid, 1);
        let node = graph_add_node(&mut self.graph, GateType::FpMessagePass([input], [o0, o1]));
        graph_add_edge(&mut self.graph, input.node_idx, node, input);
        proof {
            lemma_wire_ok_mono(input, start.wire_count, start.nodes().len() as int, self.wire_count, node as int);
            Self::lemma_grow(start, *self);
            if start.counts_ok() {
                Self::lemma_counts_step(start, *self);
            }
            if start.wires_ok() {
                Self::lemma_wires_step(start, *self, fid);
            }
        }
        (o0, o1)
    }

    /// Marks the value of `input` as the next output of its field.
    pub fn output_gate(&mut self, input: Wire)
        requires
            old(self).wf(),
            old(self).valid_wire(input),
            old(self).has_room(input.fid, 1, 1, 0, 0),
            old(self).output_wire_count[input.fid.spec_idx()] < usize::MAX,
        ensures
            final(self).wf(),
            final(self).nodes() == old(self).nodes().push(
                GateType::Output([input], (), old(self).output_wire_count[input.fid.spec_idx()] as usize),
            ),
            final(self).edges() == old(self).edges().push(edge_of(input, old(self).nodes().len() as int)),
            final(self).counted(*old(self), input.fid, 0, 0),
            final(self).output_wire_count[input.fid.spec_idx()] == old(self).output_wire_count[input.fid.spec_idx()] + 1,
            final(self).output_wire_count[input.fid.other().spec_idx()] == old(self).output_wire_count[input.fid.other().spec_idx()],
            final(self).witness_wire_count == old(self).witness_wire_count,
            final(self).public_input_wire_count == old(self).public_input_wire_count,
            final(self).message_pass_wire_count == old(self).message_pass_wire_count,
    {
        let ghost start = *self;
        let k = input.fid.idx();
        let out_id = self.output_wire_count[k];
        self.output_wire_count[k] = self.output_wire_count[k] + 1;
        let node = graph_add_node(&mut self.graph, GateType::Output([input], (), out_id));
        graph_add_edge(&mut self.graph, input.node_idx, node, input);
        proof {
            Self::lemma_grow(start, *self);
            if start.counts_ok() {
                Self::lemma_counts_step(start, *self);
            }
            if start.wires_ok() {
                Self::lemma_wires_step(start, *self, input.fid);
            }
        }
    }
}


impl Clone for CircuitSpec {
    /// A copy of the circuit, with the same gates, edges and counters.
    fn clone(&self) -> (r: Self)
        ensures
            r.nodes() == self.nodes(),
            r.edges() == self.edges(),
            r.zero == self.zero,
            r.one == self.one,
            r.witness_wire_count == self.witness_wire_count,
            r.public_input_wire_count == self.public_input_wire_count,
            r.message_pass_wire_count == self.message_pass_wire_count,
            r.output_wire_count == self.output_wire_count,
            r.row_count == self.row_count,
            r.wire_count == self.wire_count,
    {
        CircuitSpec {
            graph: graph_clone(&self.graph),
            zero: self.zero,
            one: self.one,
            witness_wire_count: self.witness_wire_count,
            public_input_wire_count: self.public_input_wire_count,
            message_pass_wire_count: self.message_pass_wire_count,
            output_wire_count: self.output_wire_count,
            row_count: self.row_count,
            wire_count: self.wire_count,
        }
    }
}

} // verus!
