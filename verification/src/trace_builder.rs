//! Filling the PLONK trace of a circuit: the gates are evaluated in
//! topological order, each writes its row of witness values (`ws`),
//! selectors (`qs`) and round coefficients (`rs`), and every wire collects
//! the cells it occupies, from which the copy constraints are built.
use vstd::prelude::*;
use crate::field::{PastaFE, PastaFieldId, modulus, op_fid, fquot, finv, fp_modulus, fq_modulus};
use crate::affine::{PastaAffine, curve_add, valid_point};
use crate::circuit::{CircuitSpec, GateType, Wire, SlotId, gate_ok, wire_ok, field_at, graph_nodes, graph_toposort, graph_node_weight, outputs, edged_inputs, produced, is_topo_order};
use crate::table::{Table, MultiAssign};
use crate::modular::lemma_reduced;
use crate::sigma::{classes_disjoint, lemma_flat_cell};
use crate::constraints::{Cf, mat, mat_in_field, sbox7, poseidon_round_constraint, poseidon_constraint, vals};
use vstd::arithmetic::power::pow;

verus! {

/// Why a trace could not be built.
#[derive(Clone, Copy, Debug, PartialEq, Eq, Structural)]
pub enum TraceError {
    /// The wire handed to `witness` is not the output of a witness gate.
    NotAWitnessWire,
    /// The wire handed to `public_input` is not the output of a public-input gate.
    NotAPublicInputWire,
    /// The wire names a node the circuit does not have.
    NoSuchWire,
    /// The wire was given a value before.
    AlreadyAssigned,
    /// The number of assigned witnesses differs from the circuit's.
    WitnessCount,
    /// The number of assigned public inputs differs from the circuit's.
    PublicInputCount,
    /// The graph of gates has a cycle.
    Cycle,
    /// A witness or public-input wire was never given a value.
    Unassigned,
    /// A value that must be inverted is zero.
    NoInverse,
    /// A value has no field to be computed in.
    NoFieldId,
    /// A point is not on its curve.
    NotOnCurve,
    /// The trace table has no room for another row.
    RowOverflow,
    /// An output gate names an output slot the circuit does not have.
    OutputOverflow,
    /// A gate has an output wire with an unexpected output index.
    BadOutputId,
    /// More values were given than a counter can hold.
    TooManyValues,
    /// A wire that must hold zero or one holds something else.
    UnexpectedValue,
    /// A scalar has more than 254 significant bits.
    ScalarTooLarge,
    /// The doubling helper values do not satisfy the doubling gate.
    DoublingCheck,
}

/// The value of a wire in field `f`: a canonical element tagged with `f`,
/// or the untagged zero that every wire holds before it is computed.
pub open spec fn val_ok(v: PastaFE, f: PastaFieldId) -> bool {
    &&& v.fits(f)
    &&& (v.fid == Some(f) || (v.fid is None && v.v() == 0))
}

/// A cell of the first 8 witness columns of a trace of `rows` rows: the
/// columns that copy constraints may name.
pub open spec fn slot_ok(s: SlotId, rows: int) -> bool {
    s.wf() && s.spec_row() <= rows && s.spec_column() <= 8
}

/// The trace of one field, ready to be interpolated into polynomials.
pub struct FieldTrace {
    /// The witness columns.
    pub ws: Table,
    /// The round-coefficient columns.
    pub rs: Table,
    /// The selector columns.
    pub qs: Table,
    /// The negated public inputs, then the negated message-pass inputs.
    pub public_inputs: Vec<PastaFE>,
    /// For each wire, the cells that must hold its value.
    pub copy_constraints: Vec<Vec<SlotId>>,
    /// The values of the output gates, by output index.
    pub out_wires: Vec<PastaFE>,
    /// The number of rows, a power of two of at least 4.
    pub rows: usize,
}

impl FieldTrace {
    /// The tables have 16, 15 and 9 columns of `rows` rows, every copy
    /// constraint names a cell of the trace, and every public input and
    /// output is an element of field `f`.
    pub open spec fn wf(&self, f: PastaFieldId) -> bool {
        &&& self.ws.wf() && self.ws.cols == 16 && self.ws.rows == self.rows
        &&& self.rs.wf() && self.rs.cols == 15 && self.rs.rows == self.rows
        &&& self.qs.wf() && self.qs.cols == 9 && self.qs.rows == self.rows
        &&& forall|i: int, j: int|
            0 <= i < self.copy_constraints@.len() && 0 <= j < self.copy_constraints@[i]@.len() ==> slot_ok(
                #[trigger] self.copy_constraints@[i]@[j],
                self.rows as int,
            )
        &&& forall|i: int| 0 <= i < self.public_inputs@.len() ==> #[trigger] self.public_inputs@[i].in_field(f)
        &&& forall|i: int| 0 <= i < self.out_wires@.len() ==> val_ok(#[trigger] self.out_wires@[i], f)
    }
}


/// The value a selector cell stands for: -1 for the marker, else its value.
pub open spec fn sel(e: PastaFE) -> int {
    if e.is_neg_one {
        -1
    } else {
        e.v()
    }
}

/// Row `row` of the trace satisfies the PLONK arithmetic gate
/// `q_l*w_l + q_r*w_r + q_o*w_o + q_m*w_l*w_r + q_c + pi == 0` modulo `m`.
pub open spec fn arith_holds_at(tr: FieldTrace, row: int, pi: int, m: int) -> bool {
    let (wl, wr, wo) = (tr.ws.at(0, row).v(), tr.ws.at(1, row).v(), tr.ws.at(2, row).v());
    (sel(tr.qs.at(0, row)) * wl + sel(tr.qs.at(1, row)) * wr + sel(tr.qs.at(2, row)) * wo + sel(
        tr.qs.at(3, row),
    ) * wl * wr + sel(tr.qs.at(4, row)) + pi) % m == 0
}

/// The arrays `w` and `q` of a row satisfy the PLONK arithmetic gate with
/// public input `pi` modulo `m`.
pub open spec fn arith_holds(w: [PastaFE; 16], q: [PastaFE; 9], pi: int, m: int) -> bool {
    (sel(q[0]) * w[0].v() + sel(q[1]) * w[1].v() + sel(q[2]) * w[2].v() + sel(q[3]) * w[0].v() * w[1].v()
        + sel(q[4]) + pi) % m == 0
}

/// The arithmetic gate of row `r` of the tables `ws` and `qs` with public
/// input `pi`, modulo `m`.
pub open spec fn row_arith(ws: Table, qs: Table, r: int, pi: int, m: int) -> bool {
    let (wl, wr, wo) = (ws.at(0, r).v(), ws.at(1, r).v(), ws.at(2, r).v());
    (sel(qs.at(0, r)) * wl + sel(qs.at(1, r)) * wr + sel(qs.at(2, r)) * wo + sel(qs.at(3, r)) * wl * wr
        + sel(qs.at(4, r)) + pi) % m == 0
}

/// The public-input term of row `r` while the trace is built: the public
/// inputs fill the first rows, the message-pass inputs the rows from
/// `pi_offset` on, and every other row has none.
pub open spec fn pi_term(pis: Seq<PastaFE>, mps: Seq<PastaFE>, pi_offset: int, r: int) -> int {
    if 0 <= r < pis.len() {
        pis[r].v()
    } else if pi_offset <= r < pi_offset + mps.len() {
        mps[r - pi_offset].v()
    } else {
        0
    }
}

/// Row `r` is an equality assertion (`q_l = 1`, `q_r = -1`, the other
/// arithmetic selectors zero) whose two values differ.
pub open spec fn failed_assertion(ws: Table, qs: Table, r: int) -> bool {
    &&& sel(qs.at(0, r)) == 1 && sel(qs.at(1, r)) == -1
    &&& sel(qs.at(2, r)) == 0 && sel(qs.at(3, r)) == 0 && sel(qs.at(4, r)) == 0
    &&& ws.at(0, r).v() != ws.at(1, r).v()
}

/// The arrays of a row make it an equality assertion whose two values differ.
pub open spec fn failed_assertion_row(w: [PastaFE; 16], q: [PastaFE; 9]) -> bool {
    &&& sel(q[0]) == 1 && sel(q[1]) == -1
    &&& sel(q[2]) == 0 && sel(q[3]) == 0 && sel(q[4]) == 0
    &&& w[0].v() != w[1].v()
}

/// Every row below `rows` satisfies the arithmetic gate with its
/// public-input term, or is an equality assertion whose values differ.
#[verifier::opaque]
pub open spec fn rows_ok(ws: Table, qs: Table, rows: int, pis: Seq<PastaFE>, mps: Seq<PastaFE>, pi_offset: int, m: int) -> bool {
    forall|r: int|
        0 <= r < rows ==> #[trigger] row_arith(ws, qs, r, pi_term(pis, mps, pi_offset, r), m) || failed_assertion(
            ws,
            qs,
            r,
        )
}

/// The public-input term of row `r` of a finished trace: the `r`-th public
/// input, or none past the last.
pub open spec fn public_term(tr: FieldTrace, r: int) -> int {
    if 0 <= r < tr.public_inputs@.len() {
        tr.public_inputs@[r].v()
    } else {
        0
    }
}

/// Every row of the trace satisfies the PLONK arithmetic gate
/// `q_l*w_l + q_r*w_r + q_o*w_o + q_m*w_l*w_r + q_c + PI(row) == 0` modulo
/// `m`, with `PI(row)` the public input of that row, except an equality
/// assertion whose two values differ.
pub open spec fn trace_arith_ok(tr: FieldTrace, m: int) -> bool {
    forall|r: int|
        0 <= r < tr.rows ==> #[trigger] arith_holds_at(tr, r, public_term(tr, r), m) || failed_assertion(
            tr.ws,
            tr.qs,
            r,
        )
}

/// Writing one row keeps every row satisfied when the new row satisfies its
/// arithmetic constraint with its new public-input term and the other rows
/// keep their cells and their terms.
pub proof fn lemma_rows_ok_write(
    ws0: Table,
    qs0: Table,
    ws1: Table,
    qs1: Table,
    rows: int,
    pis0: Seq<PastaFE>,
    mps0: Seq<PastaFE>,
    pis1: Seq<PastaFE>,
    mps1: Seq<PastaFE>,
    pi_offset: int,
    m: int,
    row: int,
)
    requires
        rows_ok(ws0, qs0, rows, pis0, mps0, pi_offset, m),
        0 <= row < rows,
        row_arith(ws1, qs1, row, pi_term(pis1, mps1, pi_offset, row), m) || failed_assertion(ws1, qs1, row),
        forall|c: int, r: int| 0 <= c < 3 && 0 <= r < rows && r != row ==> #[trigger] ws1.at(c, r) == ws0.at(c, r),
        forall|c: int, r: int| 0 <= c < 5 && 0 <= r < rows && r != row ==> #[trigger] qs1.at(c, r) == qs0.at(c, r),
        forall|r: int| 0 <= r < rows && r != row ==> #[trigger] pi_term(pis1, mps1, pi_offset, r) == pi_term(pis0, mps0, pi_offset, r),
    ensures
        rows_ok(ws1, qs1, rows, pis1, mps1, pi_offset, m),
{
    reveal(rows_ok);
    assert forall|r: int| 0 <= r < rows implies #[trigger] row_arith(ws1, qs1, r, pi_term(pis1, mps1, pi_offset, r), m)
        || failed_assertion(ws1, qs1, r) by {
        if r != row {
            assert(row_arith(ws0, qs0, r, pi_term(pis0, mps0, pi_offset, r), m) || failed_assertion(ws0, qs0, r));
            assert(ws1.at(0, r) == ws0.at(0, r) && ws1.at(1, r) == ws0.at(1, r) && ws1.at(2, r) == ws0.at(2, r));
            assert(qs1.at(0, r) == qs0.at(0, r) && qs1.at(1, r) == qs0.at(1, r) && qs1.at(2, r) == qs0.at(2, r));
            assert(qs1.at(3, r) == qs0.at(3, r) && qs1.at(4, r) == qs0.at(4, r));
            assert(pi_term(pis1, mps1, pi_offset, r) == pi_term(pis0, mps0, pi_offset, r));
        }
    }
}

/// `x - (x mod m)` is a multiple of `m`.
pub proof fn lemma_sub_own_residue(x: int, m: int)
    requires
        m > 0,
    ensures
        (x - x % m) % m == 0,
{
    vstd::arithmetic::div_mod::lemma_fundamental_div_mod(x, m);
    vstd::arithmetic::div_mod::lemma_mod_multiples_basic(x / m, m);
    assert(x - x % m == (x / m) * m) by (nonlinear_arith)
        requires
            x == m * (x / m) + x % m,
    ;
}

/// `x + ((0 - x) mod m)` is a multiple of `m`.
pub proof fn lemma_add_neg_residue(x: int, m: int)
    requires
        m > 0,
    ensures
        (x + (0 - x) % m) % m == 0,
{
    vstd::arithmetic::div_mod::lemma_fundamental_div_mod(0 - x, m);
    vstd::arithmetic::div_mod::lemma_mod_multiples_basic((0 - x) / m, m);
    assert(x + (0 - x) % m == -((0 - x) / m) * m) by (nonlinear_arith)
        requires
            0 - x == m * ((0 - x) / m) + (0 - x) % m,
    ;
    vstd::arithmetic::div_mod::lemma_mod_multiples_basic(-((0 - x) / m), m);
}

/// The untagged zero.
fn zero_cell() -> (r: PastaFE)
    ensures
        r.v() == 0,
        !r.is_neg_one,
        r.fid is None,
        sel(r) == 0,
        r == PastaFE::zero_spec(),
{
    PastaFE::zero(None)
}

/// The untagged one.
fn one_cell() -> (r: PastaFE)
    ensures
        r.v() == 1,
        !r.is_neg_one,
        r.fid is None,
        sel(r) == 1,
        r == PastaFE::one_spec(),
{
    PastaFE::one(None)
}

/// The -1 marker.
fn neg_one_cell() -> (r: PastaFE)
    ensures
        r.is_neg_one,
        r.v() == 0,
        r.fid is None,
        sel(r) == -1,
{
    PastaFE::neg_one()
}

/// A row of witness values with the given first cells and zeros after them.
fn w_row(a: PastaFE, b: PastaFE, c: PastaFE) -> (w: [PastaFE; 16])
    ensures
        w[0] == a && w[1] == b && w[2] == c,
        forall|k: int| 3 <= k < 16 ==> #[trigger] w[k] == PastaFE::zero_spec(),
{
    let o = zero_cell();
    [a, b, c, o, o, o, o, o, o, o, o, o, o, o, o, o]
}

/// A row of selectors `[q_l, q_r, q_o, q_m, q_c, ...]` with zeros after.
fn q_row(l: PastaFE, r: PastaFE, o: PastaFE, m: PastaFE, c: PastaFE) -> (q: [PastaFE; 9])
    ensures
        q[0] == l && q[1] == r && q[2] == o && q[3] == m && q[4] == c,
        forall|k: int| 5 <= k < 9 ==> #[trigger] q[k] == PastaFE::zero_spec(),
{
    let z = zero_cell();
    [l, r, o, m, c, z, z, z, z]
}

/// The selector row with a single one at `k` (one of the custom gates).
fn q_unit(k: usize) -> (q: [PastaFE; 9])
    requires
        k < 9,
    ensures
        forall|j: int| 0 <= j < 9 ==> #[trigger] q[j] == if j == k {
            PastaFE::one_spec()
        } else {
            PastaFE::zero_spec()
        },
{
    let mut q = [zero_cell(); 9];
    q[k] = one_cell();
    q
}


/// The negation row `[x, -x, 0, ..]` with `q_l = q_r = 1`, `q_o = -1`
/// satisfies the arithmetic gate.
pub proof fn lemma_negate_row(w: [PastaFE; 16], q: [PastaFE; 9], m: int)
    requires
        m > 1,
        sel(q[0]) == 1 && sel(q[1]) == 1 && sel(q[2]) == -1 && sel(q[3]) == 0 && sel(q[4]) == 0,
        0 <= w[0].v() < m,
        w[1].v() == (0 - w[0].v()) % m,
        w[2].v() == 0,
    ensures
        arith_holds(w, q, 0, m),
{
    lemma_add_neg_residue(w[0].v(), m);
}

/// Three residues differ from their integers by multiples of `m`.
pub proof fn lemma_three_residues(a0: int, a1: int, a2: int, m: int)
    requires
        m > 0,
    ensures
        ((a0 % m - a0) + (a1 % m - a1) + (a2 % m - a2)) % m == 0,
{
    vstd::arithmetic::div_mod::lemma_fundamental_div_mod(a0, m);
    vstd::arithmetic::div_mod::lemma_fundamental_div_mod(a1, m);
    vstd::arithmetic::div_mod::lemma_fundamental_div_mod(a2, m);
    let k = -(a0 / m + a1 / m + a2 / m);
    assert((a0 % m - a0) + (a1 % m - a1) + (a2 % m - a2) == k * m) by (nonlinear_arith)
        requires
            a0 == m * (a0 / m) + a0 % m,
            a1 == m * (a1 / m) + a1 % m,
            a2 == m * (a2 / m) + a2 % m,
            k == -(a0 / m + a1 / m + a2 / m),
    ;
    vstd::arithmetic::div_mod::lemma_mod_multiples_basic(k, m);
}

/// A sum of five multiples of `m` is a multiple of `m`.
pub proof fn lemma_five_multiples(c1: int, c2: int, c3: int, c4: int, c5: int, m: int)
    requires
        m > 0,
        c1 % m == 0,
        c2 % m == 0,
        c3 % m == 0,
        c4 % m == 0,
        c5 % m == 0,
    ensures
        (c1 + c2 + c3 + c4 + c5) % m == 0,
{
    vstd::arithmetic::div_mod::lemma_fundamental_div_mod(c1, m);
    vstd::arithmetic::div_mod::lemma_fundamental_div_mod(c2, m);
    vstd::arithmetic::div_mod::lemma_fundamental_div_mod(c3, m);
    vstd::arithmetic::div_mod::lemma_fundamental_div_mod(c4, m);
    vstd::arithmetic::div_mod::lemma_fundamental_div_mod(c5, m);
    let k = c1 / m + c2 / m + c3 / m + c4 / m + c5 / m;
    assert(c1 + c2 + c3 + c4 + c5 == k * m) by (nonlinear_arith)
        requires
            c1 == m * (c1 / m),
            c2 == m * (c2 / m),
            c3 == m * (c3 / m),
            c4 == m * (c4 / m),
            c5 == m * (c5 / m),
            k == c1 / m + c2 / m + c3 / m + c4 / m + c5 / m,
    ;
    vstd::arithmetic::div_mod::lemma_mod_multiples_basic(k, m);
}

/// `x^7` is the seven-fold product of the S-box.
pub proof fn lemma_pow7(x: int)
    ensures
        pow(x, 7) == sbox7(x),
{
    reveal_with_fuel(pow, 8);
    assert(x * (x * (x * (x * (x * (x * (x * 1)))))) == x * x * x * x * x * x * x) by (nonlinear_arith);
}

/// One output of a Poseidon round: the round constant plus row `i` of the
/// MDS matrix applied to the S-boxed inputs, modulo `m`.
pub open spec fn round_out(mds: [[PastaFE; 3]; 3], i: int, rc: int, w0: int, w1: int, w2: int, m: int) -> int {
    (rc + (mat(mds, i, 0) * pow(w0, 7) + mat(mds, i, 1) * pow(w1, 7) + mat(mds, i, 2) * pow(w2, 7))) % m
}

/// The state after round `j` of a Poseidon gate with round constants `r`,
/// from the state `s`.
pub open spec fn round_state(mds: [[PastaFE; 3]; 3], r: [PastaFE; 15], j: int, s: Seq<int>, m: int) -> Seq<int> {
    seq![
        round_out(mds, 0, r[3 * j].v(), s[0], s[1], s[2], m),
        round_out(mds, 1, r[3 * j + 1].v(), s[0], s[1], s[2], m),
        round_out(mds, 2, r[3 * j + 2].v(), s[0], s[1], s[2], m),
    ]
}

/// The state after the five rounds of a Poseidon gate, from the state `s`.
pub open spec fn poseidon_out(mds: [[PastaFE; 3]; 3], r: [PastaFE; 15], s: Seq<int>, m: int) -> Seq<int> {
    round_state(
        mds,
        r,
        4,
        round_state(mds, r, 3, round_state(mds, r, 2, round_state(mds, r, 1, round_state(mds, r, 0, s, m), m), m), m),
        m,
    )
}

/// One round of the Poseidon permutation: the S-box `x^7` on each of the
/// three inputs, the MDS matrix, and the round constants.
pub fn poseidon_round(
    mds: &[[PastaFE; 3]; 3],
    r0: PastaFE,
    r1: PastaFE,
    r2: PastaFE,
    w0: PastaFE,
    w1: PastaFE,
    w2: PastaFE,
) -> (res: (PastaFE, PastaFE, PastaFE))
    requires
        w0.fid is Some,
        mat_in_field(*mds, w0.fid.unwrap()),
        r0.in_field(w0.fid.unwrap()) && r1.in_field(w0.fid.unwrap()) && r2.in_field(w0.fid.unwrap()),
        w0.in_field(w0.fid.unwrap()) && w1.in_field(w0.fid.unwrap()) && w2.in_field(w0.fid.unwrap()),
    ensures
        ({
            let f = w0.fid.unwrap();
            let m = modulus(f);
            &&& res.0.in_field(f) && res.1.in_field(f) && res.2.in_field(f)
            &&& res.0.v() == round_out(*mds, 0, r0.v(), w0.v(), w1.v(), w2.v(), m)
            &&& res.1.v() == round_out(*mds, 1, r1.v(), w0.v(), w1.v(), w2.v(), m)
            &&& res.2.v() == round_out(*mds, 2, r2.v(), w0.v(), w1.v(), w2.v(), m)
            &&& poseidon_round_constraint(
                *mds,
                w0.v(), w1.v(), w2.v(), res.0.v(), res.1.v(), res.2.v(), r0.v(), r1.v(), r2.v(),
            ) % m == 0
        }),
{
    let ghost f = w0.fid.unwrap();
    let ghost m = modulus(f);
    proof {
        crate::field::lemma_modulus_bounds(f);
        assert(mds[0][0].in_field(f) && mds[0][1].in_field(f) && mds[0][2].in_field(f));
        assert(mds[1][0].in_field(f) && mds[1][1].in_field(f) && mds[1][2].in_field(f));
        assert(mds[2][0].in_field(f) && mds[2][1].in_field(f) && mds[2][2].in_field(f));
    }
    let s0 = Cf::with(w0.pow(7), Ghost(pow(w0.v(), 7)), Ghost(f));
    let s1 = Cf::with(w1.pow(7), Ghost(pow(w1.v(), 7)), Ghost(f));
    let s2 = Cf::with(w2.pow(7), Ghost(pow(w2.v(), 7)), Ghost(f));
    let m00 = Cf::lift(mds[0][0], Ghost(f));
    let m01 = Cf::lift(mds[0][1], Ghost(f));
    let m02 = Cf::lift(mds[0][2], Ghost(f));
    let m10 = Cf::lift(mds[1][0], Ghost(f));
    let m11 = Cf::lift(mds[1][1], Ghost(f));
    let m12 = Cf::lift(mds[1][2], Ghost(f));
    let m20 = Cf::lift(mds[2][0], Ghost(f));
    let m21 = Cf::lift(mds[2][1], Ghost(f));
    let m22 = Cf::lift(mds[2][2], Ghost(f));
    let c0 = Cf::lift(r0, Ghost(f));
    let c1 = Cf::lift(r1, Ghost(f));
    let c2 = Cf::lift(r2, Ghost(f));
    let o0 = c0.add(&m00.mul(&s0, Ghost(f)).add(&m01.mul(&s1, Ghost(f)), Ghost(f)).add(&m02.mul(&s2, Ghost(f)), Ghost(f)), Ghost(f));
    let o1 = c1.add(&m10.mul(&s0, Ghost(f)).add(&m11.mul(&s1, Ghost(f)), Ghost(f)).add(&m12.mul(&s2, Ghost(f)), Ghost(f)), Ghost(f));
    let o2 = c2.add(&m20.mul(&s0, Ghost(f)).add(&m21.mul(&s1, Ghost(f)), Ghost(f)).add(&m22.mul(&s2, Ghost(f)), Ghost(f)), Ghost(f));
    proof {
        let (p0, p1, p2) = (pow(w0.v(), 7), pow(w1.v(), 7), pow(w2.v(), 7));
        lemma_pow7(w0.v());
        lemma_pow7(w1.v());
        lemma_pow7(w2.v());
        let a0 = r0.v() + (mat(*mds, 0, 0) * p0 + mat(*mds, 0, 1) * p1 + mat(*mds, 0, 2) * p2);
        let a1 = r1.v() + (mat(*mds, 1, 0) * p0 + mat(*mds, 1, 1) * p1 + mat(*mds, 1, 2) * p2);
        let a2 = r2.v() + (mat(*mds, 2, 0) * p0 + mat(*mds, 2, 1) * p1 + mat(*mds, 2, 2) * p2);
        lemma_three_residues(a0, a1, a2, m);
        assert(poseidon_round_constraint(*mds, w0.v(), w1.v(), w2.v(), a0 % m, a1 % m, a2 % m, r0.v(), r1.v(), r2.v())
            == (a0 % m - a0) + (a1 % m - a1) + (a2 % m - a2)) by (nonlinear_arith)
            requires
                sbox7(w0.v()) == p0,
                sbox7(w1.v()) == p1,
                sbox7(w2.v()) == p2,
                a0 == r0.v() + (mat(*mds, 0, 0) * p0 + mat(*mds, 0, 1) * p1 + mat(*mds, 0, 2) * p2),
                a1 == r1.v() + (mat(*mds, 1, 0) * p0 + mat(*mds, 1, 1) * p1 + mat(*mds, 1, 2) * p2),
                a2 == r2.v() + (mat(*mds, 2, 0) * p0 + mat(*mds, 2, 1) * p1 + mat(*mds, 2, 2) * p2),
        ;
    }
    (o0.e, o1.e, o2.e)
}

/// A row of the Poseidon gate filled by five rounds of the permutation, the
/// next row starting with the last round's output, satisfies its constraint:
/// the Poseidon constraint vanishes modulo `m`.
pub proof fn lemma_poseidon_rounds_satisfy_gate(mds: [[PastaFE; 3]; 3], r: Seq<int>, w: Seq<int>, nw: Seq<int>, m: int)
    requires
        m > 0,
        r.len() == 15,
        w.len() == 16,
        nw.len() == 3,
        forall|k: int, i: int|
            0 <= k < 4 && 0 <= i < 3 ==> #[trigger] w[3 * k + 3 + i] == round_out(mds, i, r[3 * k + i], w[3 * k], w[3 * k + 1], w[3 * k + 2], m),
        forall|i: int| 0 <= i < 3 ==> #[trigger] nw[i] == round_out(mds, i, r[12 + i], w[12], w[13], w[14], m),
    ensures
        poseidon_constraint(mds, r, w, nw) % m == 0,
{
    assert forall|k: int| 0 <= k < 5 implies #[trigger] round_zero(mds, r, w, nw, k, m) by {
        let (a, b, c) = if k < 4 {
            (w[3 * k + 3], w[3 * k + 4], w[3 * k + 5])
        } else {
            (nw[0], nw[1], nw[2])
        };
        if k < 4 {
            assert(w[3 * k + 3 + 0] == round_out(mds, 0, r[3 * k + 0], w[3 * k], w[3 * k + 1], w[3 * k + 2], m));
            assert(w[3 * k + 3 + 1] == round_out(mds, 1, r[3 * k + 1], w[3 * k], w[3 * k + 1], w[3 * k + 2], m));
            assert(w[3 * k + 3 + 2] == round_out(mds, 2, r[3 * k + 2], w[3 * k], w[3 * k + 1], w[3 * k + 2], m));
        } else {
            assert(nw[0] == round_out(mds, 0, r[12int + 0], w[12], w[13], w[14], m));
            assert(nw[1] == round_out(mds, 1, r[12int + 1], w[12], w[13], w[14], m));
            assert(nw[2] == round_out(mds, 2, r[12int + 2], w[12], w[13], w[14], m));
        }
        lemma_round_constraint_zero(mds, w[3 * k], w[3 * k + 1], w[3 * k + 2], a, b, c, r[3 * k], r[3 * k + 1], r[3 * k + 2], m);
    }
    assert(round_zero(mds, r, w, nw, 0, m) && round_zero(mds, r, w, nw, 1, m) && round_zero(mds, r, w, nw, 2, m));
    assert(round_zero(mds, r, w, nw, 3, m) && round_zero(mds, r, w, nw, 4, m));
    lemma_five_multiples(
        poseidon_round_constraint(mds, w[0], w[1], w[2], w[3], w[4], w[5], r[0], r[1], r[2]),
        poseidon_round_constraint(mds, w[3], w[4], w[5], w[6], w[7], w[8], r[3], r[4], r[5]),
        poseidon_round_constraint(mds, w[6], w[7], w[8], w[9], w[10], w[11], r[6], r[7], r[8]),
        poseidon_round_constraint(mds, w[9], w[10], w[11], w[12], w[13], w[14], r[9], r[10], r[11]),
        poseidon_round_constraint(mds, w[12], w[13], w[14], nw[0], nw[1], nw[2], r[12], r[13], r[14]),
        m,
    );
}

/// Round `k` of the Poseidon gate at `r`, `w`, `nw` vanishes modulo `m`.
pub open spec fn round_zero(mds: [[PastaFE; 3]; 3], r: Seq<int>, w: Seq<int>, nw: Seq<int>, k: int, m: int) -> bool {
    let (a, b, c) = if k < 4 {
        (w[3 * k + 3], w[3 * k + 4], w[3 * k + 5])
    } else {
        (nw[0], nw[1], nw[2])
    };
    poseidon_round_constraint(mds, w[3 * k], w[3 * k + 1], w[3 * k + 2], a, b, c, r[3 * k], r[3 * k + 1], r[3 * k + 2]) % m == 0
}

/// A round whose outputs are the round function of its inputs satisfies
/// the round constraint modulo `m`.
pub proof fn lemma_round_constraint_zero(
    mds: [[PastaFE; 3]; 3],
    w0: int, w1: int, w2: int, o0: int, o1: int, o2: int, r0: int, r1: int, r2: int, m: int,
)
    requires
        m > 0,
        o0 == round_out(mds, 0, r0, w0, w1, w2, m),
        o1 == round_out(mds, 1, r1, w0, w1, w2, m),
        o2 == round_out(mds, 2, r2, w0, w1, w2, m),
    ensures
        poseidon_round_constraint(mds, w0, w1, w2, o0, o1, o2, r0, r1, r2) % m == 0,
{
    let (p0, p1, p2) = (pow(w0, 7), pow(w1, 7), pow(w2, 7));
    lemma_pow7(w0);
    lemma_pow7(w1);
    lemma_pow7(w2);
    let a0 = r0 + (mat(mds, 0, 0) * p0 + mat(mds, 0, 1) * p1 + mat(mds, 0, 2) * p2);
    let a1 = r1 + (mat(mds, 1, 0) * p0 + mat(mds, 1, 1) * p1 + mat(mds, 1, 2) * p2);
    let a2 = r2 + (mat(mds, 2, 0) * p0 + mat(mds, 2, 1) * p1 + mat(mds, 2, 2) * p2);
    lemma_three_residues(a0, a1, a2, m);
    assert(poseidon_round_constraint(mds, w0, w1, w2, a0 % m, a1 % m, a2 % m, r0, r1, r2)
        == (a0 % m - a0) + (a1 % m - a1) + (a2 % m - a2)) by (nonlinear_arith)
        requires
            sbox7(w0) == p0,
            sbox7(w1) == p1,
            sbox7(w2) == p2,
            a0 == r0 + (mat(mds, 0, 0) * p0 + mat(mds, 0, 1) * p1 + mat(mds, 0, 2) * p2),
            a1 == r1 + (mat(mds, 1, 0) * p0 + mat(mds, 1, 1) * p1 + mat(mds, 1, 2) * p2),
            a2 == r2 + (mat(mds, 2, 0) * p0 + mat(mds, 2, 1) * p1 + mat(mds, 2, 2) * p2),
    ;
}

/// The row of witness values of the trace, as integers.
pub open spec fn ws_row(tr: FieldTrace, row: int) -> Seq<int> {
    Seq::new(16, |c: int| tr.ws.at(c, row).v())
}

/// The row of round coefficients of the trace, as integers.
pub open spec fn rs_row(tr: FieldTrace, row: int) -> Seq<int> {
    Seq::new(15, |c: int| tr.rs.at(c, row).v())
}


/// `a + b` in field `f`; refused when neither value is tagged with a field.
fn try_add(a: PastaFE, b: PastaFE, Ghost(f): Ghost<PastaFieldId>) -> (r: Result<PastaFE, TraceError>)
    requires
        val_ok(a, f),
        val_ok(b, f),
    ensures
        r is Ok <==> (a.fid is Some || b.fid is Some),
        r matches Ok(c) ==> c.in_field(f) && c.v() == (a.v() + b.v()) % modulus(f),
{
    if a.fid.is_none() && b.fid.is_none() {
        return Err(TraceError::NoFieldId);
    }
    Ok(a.add(b))
}

/// `a - b` in field `f`; refused when neither value is tagged with a field.
fn try_sub(a: PastaFE, b: PastaFE, Ghost(f): Ghost<PastaFieldId>) -> (r: Result<PastaFE, TraceError>)
    requires
        val_ok(a, f),
        val_ok(b, f),
    ensures
        r is Ok <==> (a.fid is Some || b.fid is Some),
        r matches Ok(c) ==> c.in_field(f) && c.v() == (a.v() - b.v()) % modulus(f),
{
    if a.fid.is_none() && b.fid.is_none() {
        return Err(TraceError::NoFieldId);
    }
    Ok(a.sub(b))
}

/// `a * b` in field `f`; refused when neither value is tagged with a field.
fn try_mul(a: PastaFE, b: PastaFE, Ghost(f): Ghost<PastaFieldId>) -> (r: Result<PastaFE, TraceError>)
    requires
        val_ok(a, f),
        val_ok(b, f),
    ensures
        r is Ok <==> (a.fid is Some || b.fid is Some),
        r matches Ok(c) ==> c.in_field(f) && c.v() == (a.v() * b.v()) % modulus(f),
{
    if a.fid.is_none() && b.fid.is_none() {
        return Err(TraceError::NoFieldId);
    }
    Ok(a.mul(b))
}

/// `1 / a` modulo `m` for a nonzero residue `a`, and zero for zero.
pub open spec fn inv0_spec(a: int, m: int) -> int {
    if a == 0 {
        0
    } else {
        fquot(1, a, m)
    }
}

/// `1 / x` in field `f`, with zero mapped to zero.
fn inv0(x: PastaFE, Ghost(f): Ghost<PastaFieldId>) -> (r: PastaFE)
    requires
        val_ok(x, f),
    ensures
        val_ok(r, f),
        r.v() == inv0_spec(x.v(), modulus(f)),
{
    if x.is_zero() {
        zero_cell()
    } else {
        proof { crate::field::lemma_modulus_bounds(f); }
        one_cell().div(x)
    }
}

/// Twice a nonzero residue modulo an odd `m` is not divisible by `m`.
pub proof fn lemma_double_nonzero(y: int, m: int)
    requires
        0 < y < m,
        m % 2 == 1,
    ensures
        (2 * y) % m != 0,
{
    if (2 * y) % m == 0 {
        vstd::arithmetic::div_mod::lemma_fundamental_div_mod(2 * y, m);
        let k = (2 * y) / m;
        assert(2 * y == m * k);
        assert(k == 1) by (nonlinear_arith)
            requires
                2 * y == m * k,
                0 < y < m,
        ;
        assert(false);
    }
}

/// Both Pasta moduli are odd.
pub proof fn lemma_modulus_odd(f: PastaFieldId)
    ensures
        modulus(f) % 2 == 1,
{
}

/// The slope of the tangent at `(x, y)`: `3x^2 / 2y`, computed modulo `m`.
pub open spec fn tangent_slope(x: int, y: int, m: int) -> int {
    fquot((3 * ((x * x) % m)) % m, (2 * y) % m, m)
}

/// The helper values of the complete addition of `p` and `q` can be
/// computed: the abscissae and the ordinates each have a field to be
/// subtracted in, and so does the tangent when the abscissae agree and
/// `yp != 0`.
pub open spec fn add_params_ok(p: PastaAffine, q: PastaAffine) -> bool {
    &&& q.x.fid is Some || p.x.fid is Some
    &&& q.y.fid is Some || p.y.fid is Some
    &&& q.x.v() == p.x.v() && p.y.v() != 0 ==> p.x.fid is Some
}

/// The helper values `[alpha, beta, gamma, delta, lambda]` of the complete
/// addition gate for `P + Q`: the inverses (zero for zero) of `xq - xp`,
/// `xp` and `xq`, of `yq + yp` when the abscissae agree, and the slope of
/// the chord (or of the tangent, when the abscissae agree and `yp != 0`).
/// Refused where a difference or sum has no field to be computed in.
fn affine_add_params(p: PastaAffine, q: PastaAffine, Ghost(f): Ghost<PastaFieldId>) -> (r: Result<[PastaFE; 5], TraceError>)
    requires
        val_ok(p.x, f) && val_ok(p.y, f) && val_ok(q.x, f) && val_ok(q.y, f),
    ensures
        r is Ok <==> add_params_ok(p, q),
        r matches Ok(v) ==> {
            let m = modulus(f);
            let (xp, yp, xq, yq) = (p.x.v(), p.y.v(), q.x.v(), q.y.v());
            &&& forall|k: int| 0 <= k < 5 ==> val_ok(#[trigger] v[k], f)
            &&& v[0].v() == inv0_spec((xq - xp) % m, m)
            &&& v[1].v() == inv0_spec(xp, m)
            &&& v[2].v() == inv0_spec(xq, m)
            &&& v[3].v() == if xq == xp { inv0_spec((yq + yp) % m, m) } else { 0 }
            &&& v[4].v() == if xq != xp {
                fquot((yq - yp) % m, (xq - xp) % m, m)
            } else if yp != 0 {
                tangent_slope(xp, yp, m)
            } else {
                0
            }
        },
{
    let ghost m = modulus(f);
    proof { crate::field::lemma_modulus_bounds(f); }
    let (xp, yp, xq, yq) = (p.x, p.y, q.x, q.y);
    let zero = zero_cell();
    let d = try_sub(xq, xp, Ghost(f))?;
    let alpha = inv0(d, Ghost(f));
    let beta = inv0(xp, Ghost(f));
    let gamma = inv0(xq, Ghost(f));
    let same_x = xq.eq(&xp);
    proof {
        if xq.v() == xp.v() {
            crate::field::lemma_limbs_injective(xq.inner, xp.inner);
        }
        assert(same_x == (xq.v() == xp.v()));
    }
    let delta = if same_x {
        let s = try_add(yq, yp, Ghost(f))?;
        inv0(s, Ghost(f))
    } else {
        zero
    };
    let lambda = if !same_x {
        let num = try_sub(yq, yp, Ghost(f))?;
        proof {
            lemma_reduced(xq.v(), m);
            lemma_reduced(xp.v(), m);
            if (xq.v() - xp.v()) % m == 0 {
                vstd::arithmetic::div_mod::lemma_mod_equivalence(xq.v(), xp.v(), m);
            }
        }
        num.div(d)
    } else if !yp.is_zero() {
        if xp.fid.is_none() {
            return Err(TraceError::NoFieldId);
        }
        proof {
            lemma_modulus_odd(f);
            lemma_double_nonzero(yp.v(), m);
        }
        let three = PastaFE::from_u64(3, None);
        let two = PastaFE::from_u64(2, None);
        three.mul(xp.square()).div(two.mul(yp))
    } else {
        zero
    };
    Ok([alpha, beta, gamma, delta, lambda])
}


/// The doubling constraints of `Q = 2P` hold modulo `m` for the helper
/// values `beta` (the inverse of `xp`, zero for zero) and `lambda` (the
/// tangent slope, zero when `yp` is zero).
pub open spec fn doubling_holds(acc: PastaAffine, m: int) -> bool {
    doubling_ok((acc.x.v(), acc.y.v()), m)
}

/// The coordinates of a point, `(0, 0)` standing for the identity.
pub open spec fn coords(s: Option<(int, int)>) -> (int, int) {
    match s {
        Some(c) => c,
        None => (0, 0),
    }
}

/// The point with coordinates `c`; an abscissa of zero stands for the
/// identity.
pub open spec fn as_point(c: (int, int)) -> Option<(int, int)> {
    if c.0 == 0 {
        None
    } else {
        Some(c)
    }
}

/// One double-and-add step from the point with coordinates `c`: its double,
/// plus `gp` when `bit` is set.
pub open spec fn dbl_add_step(c: (int, int), gp: Option<(int, int)>, bit: bool, m: int) -> (int, int) {
    let q = coords(curve_add(as_point(c), as_point(c), m));
    if bit {
        coords(curve_add(as_point(q), gp, m))
    } else {
        q
    }
}

/// The doubling constraints for the point with coordinates `c`; see
/// `doubling_holds`.
pub open spec fn doubling_ok(c: (int, int), m: int) -> bool {
    let (xp, yp) = c;
    let (xq, yq) = coords(curve_add(as_point(c), as_point(c), m));
    let b = inv0_spec(xp, m);
    let l = if yp != 0 { tangent_slope(xp, yp, m) } else { 0 };
    &&& ((1 - xp * b) * xq) % m == 0
    &&& ((1 - xp * b) * yq) % m == 0
    &&& (2 * yp * l - 3 * (xp * xp)) % m == 0
    &&& (l * l - 2 * xp - xq) % m == 0
    &&& yq == (l * (xp - xq) - yp) % m
}

/// The helper values `[beta, lambda]` of the doubling `Q = 2P` of the
/// scalar-multiplication gate: the inverse of `xp` (zero for zero) and the
/// tangent slope (zero when `yp` is zero). The doubling constraints are
/// checked on the result; the check failing is an error.
fn affine_double_params(acc: PastaAffine, Ghost(f): Ghost<PastaFieldId>) -> (r: Result<[PastaFE; 2], TraceError>)
    requires
        acc.x.in_field(f),
        acc.y.in_field(f),
        acc.usable_in(f),
        acc.fid == Some(f),
    ensures
        r is Ok <==> doubling_holds(acc, modulus(f)),
        r matches Ok(v) ==> {
            let m = modulus(f);
            let (xp, yp) = (acc.x.v(), acc.y.v());
            let q = curve_add(acc.point(), acc.point(), m);
            let (xq, yq) = match q {
                Some((x, y)) => (x, y),
                None => (0, 0),
            };
            &&& v[0].in_field(f) && v[1].in_field(f)
            &&& v[0].v() == inv0_spec(xp, m)
            &&& v[1].v() == if yp != 0 { tangent_slope(xp, yp, m) } else { 0 }
            &&& ((1 - xp * v[0].v()) * xq) % m == 0
            &&& ((1 - xp * v[0].v()) * yq) % m == 0
            &&& (2 * yp * v[1].v() - 3 * (xp * xp)) % m == 0
            &&& (v[1].v() * v[1].v() - 2 * xp - xq) % m == 0
            &&& yq == (v[1].v() * (xp - xq) - yp) % m
        },
{
    let ghost m = modulus(f);
    proof {
        crate::field::lemma_modulus_bounds(f);
        lemma_modulus_odd(f);
    }
    let fid = Some(f_exec(&acc.x));
    let zero = PastaFE::zero(fid);
    let one = PastaFE::one(fid);
    let two = PastaFE::from_u64(2, fid);
    let three = PastaFE::from_u64(3, fid);
    let xp = acc.x;
    let yp = acc.y;
    let beta = if xp.is_zero() {
        zero
    } else {
        one.div(xp)
    };
    let lambda = if !yp.is_zero() {
        proof { lemma_double_nonzero(yp.v(), m); }
        three.mul(xp.square()).div(two.mul(yp))
    } else {
        zero
    };
    let q = acc.add(acc);
    let c1 = one.sub(xp.mul(beta)).mul(q.x);
    let c2 = one.sub(xp.mul(beta)).mul(q.y);
    let c3 = two.mul(yp).mul(lambda).sub(three.mul(xp.square()));
    let c4 = lambda.square().sub(two.mul(xp)).sub(q.x);
    let c5 = lambda.mul(xp.sub(q.x)).sub(yp);
    proof {
        let (x, y, b, l, xq, yq) = (xp.v(), yp.v(), beta.v(), lambda.v(), q.x.v(), q.y.v());
        lemma_doubling_residues(x, y, b, l, xq, yq, c1.v(), c2.v(), c3.v(), c4.v(), c5.v(), m);
        if c1.v() == 0 {
            crate::field::lemma_limbs_injective(c1.inner, zero.inner);
        }
        if c2.v() == 0 {
            crate::field::lemma_limbs_injective(c2.inner, zero.inner);
        }
        if c3.v() == 0 {
            crate::field::lemma_limbs_injective(c3.inner, zero.inner);
        }
        if c4.v() == 0 {
            crate::field::lemma_limbs_injective(c4.inner, zero.inner);
        }
        if q.y.v() == c5.v() {
            crate::field::lemma_limbs_injective(q.y.inner, c5.inner);
        }
    }
    if !c1.eq(&zero) || !c2.eq(&zero) || !c3.eq(&zero) || !c4.eq(&zero) || !q.y.eq(&c5) {
        return Err(TraceError::DoublingCheck);
    }
    Ok([beta, lambda])
}


/// The residues computed by the doubling check are those of the integer
/// expressions they stand for.
proof fn lemma_doubling_residues(
    x: int, y: int, b: int, l: int, xq: int, yq: int,
    c1: int, c2: int, c3: int, c4: int, c5: int, m: int,
)
    requires
        m > 3,
        0 <= x < m && 0 <= y < m && 0 <= b < m && 0 <= l < m && 0 <= xq < m && 0 <= yq < m,
        c1 == (((1 - (x * b) % m) % m) * xq) % m,
        c2 == (((1 - (x * b) % m) % m) * yq) % m,
        c3 == ((((2 * y) % m) * l) % m - (3 * ((x * x) % m)) % m) % m,
        c4 == (((l * l) % m - (2 * x) % m) % m - xq) % m,
        c5 == ((l * ((x - xq) % m)) % m - y) % m,
    ensures
        c1 == ((1 - x * b) * xq) % m,
        c2 == ((1 - x * b) * yq) % m,
        c3 == (2 * y * l - 3 * (x * x)) % m,
        c4 == (l * l - 2 * x - xq) % m,
        c5 == (l * (x - xq) - y) % m,
{
    lemma_reduced(1, m);
    lemma_reduced(xq, m);
    lemma_reduced(yq, m);
    lemma_reduced(y, m);
    lemma_reduced(l, m);
    lemma_reduced(x, m);
    crate::modular::lemma_sub_cong(1, x * b, m);
    crate::modular::lemma_mul_cong(1 - x * b, xq, m);
    crate::modular::lemma_mul_cong(1 - x * b, yq, m);
    crate::modular::lemma_mul_cong(2 * y, l, m);
    crate::modular::lemma_mul_cong(3, x * x, m);
    lemma_reduced(3, m);
    crate::modular::lemma_sub_cong(2 * y * l, 3 * (x * x), m);
    crate::modular::lemma_sub_cong(l * l, 2 * x, m);
    crate::modular::lemma_sub_cong(l * l - 2 * x, xq, m);
    crate::modular::lemma_mul_cong(l, x - xq, m);
    crate::modular::lemma_sub_cong(l * (x - xq), y, m);
}

/// The field tag of an element known to be tagged.
fn f_exec(x: &PastaFE) -> (f: PastaFieldId)
    requires
        x.fid is Some,
    ensures
        Some(f) == x.fid,
{
    match x.fid {
        Some(f) => f,
        None => PastaFieldId::Fp,
    }
}


/// Taking one more bit: `(h / 2^(i+1)) * 2^(i+1) + bit_i(h) * 2^i`
/// is `(h / 2^i) * 2^i`.
pub proof fn lemma_bit_step(h: int, i: nat)
    requires
        h >= 0,
    ensures
        (h / pow(2, i + 1)) * pow(2, i + 1) + ((h / pow(2, i)) % 2) * pow(2, i) == (h / pow(2, i)) * pow(2, i),
{
    crate::field::lemma_pow2_step(i);
    vstd::arithmetic::div_mod::lemma_div_denominator(h, pow(2, i), 2);
    let y = h / pow(2, i);
    vstd::arithmetic::div_mod::lemma_fundamental_div_mod(y, 2);
    let t = pow(2, i);
    assert((y / 2) * (t * 2) + (y % 2) * t == y * t) by (nonlinear_arith)
        requires
            y == 2 * (y / 2) + y % 2,
    ;
}

/// A value of four limbs whose bits 254 and 255 are clear is below `2^254`.
pub proof fn lemma_top_bits_clear(h: int)
    requires
        0 <= h < 0x1_0000_0000_0000_0000_0000_0000_0000_0000_0000_0000_0000_0000_0000_0000_0000_0000int,
        (h / pow(2, 254)) % 2 != 1,
        (h / pow(2, 255)) % 2 != 1,
    ensures
        h / pow(2, 254) == 0,
        h < pow(2, 254),
{
    vstd::arithmetic::power2::lemma2_to64();
    vstd::arithmetic::power::lemma_pow_positive(2, 64);
    assert(pow(2, 64) == 0x1_0000_0000_0000_0000int);
    vstd::arithmetic::power::lemma_pow_adds(2, 64, 64);
    assert(pow(2, 128) == 0x1_0000_0000_0000_0000_0000_0000_0000_0000int);
    vstd::arithmetic::power::lemma_pow_adds(2, 128, 128);
    vstd::arithmetic::power::lemma_pow_adds(2, 254, 2);
    reveal_with_fuel(pow, 3);
    crate::field::lemma_pow2_step(254);
    let t = pow(2, 254);
    assert(pow(2, 256) == 0x1_0000_0000_0000_0000_0000_0000_0000_0000_0000_0000_0000_0000_0000_0000_0000_0000int);
    assert(pow(2, 256) == t * 4);
    vstd::arithmetic::div_mod::lemma_div_denominator(h, t, 2);
    vstd::arithmetic::div_mod::lemma_fundamental_div_mod(h, t);
    let y = h / t;
    assert(0 <= y < 4) by (nonlinear_arith)
        requires
            h == t * y + h % t,
            0 <= h % t,
            0 <= h < t * 4,
            t > 0,
    ;
    vstd::arithmetic::div_mod::lemma_mod_bound(h, t);
    assert(y == 0);
    assert(h < t) by (nonlinear_arith)
        requires
            h == t * y + h % t,
            y == 0,
            h % t < t,
    ;
}

/// A value below `2^254` has its bits 254 and 255 clear.
pub proof fn lemma_small_top_bits(h: int)
    requires
        0 <= h < pow(2, 254),
    ensures
        (h / pow(2, 254)) % 2 != 1,
        (h / pow(2, 255)) % 2 != 1,
{
    crate::field::lemma_pow2_step(254);
    vstd::arithmetic::div_mod::lemma_basic_div(h, pow(2, 254));
    vstd::arithmetic::div_mod::lemma_basic_div(h, pow(2, 255));
}

/// The point accumulated by the scalar multiplication of `gp` by `hv` once
/// the bits of `hv` from 253 down to `k` are taken, most significant first;
/// the identity for `k = 254`.
pub open spec fn sm_acc(gp: Option<(int, int)>, hv: int, k: int, m: int) -> (int, int)
    decreases 254 - k,
{
    if k >= 254 || k < 0 {
        (0, 0)
    } else {
        dbl_add_step(sm_acc(gp, hv, k + 1, m), gp, (hv / pow(2, k as nat)) % 2 == 1, m)
    }
}

/// The scalar multiplication gate on inputs `a` succeeds: the high part of
/// the scalar is below `2^254`, the point is on the curve, the 256 rows fit,
/// and the doubling constraints hold at every accumulated point.
spec fn scalar_mul_ok(st: FieldState, a: [Wire; 4]) -> bool {
    let m = modulus(st.fid);
    let hv = st.vals@[a[0].id as int].v();
    let gp = as_point((st.vals@[a[2].id as int].v(), st.vals@[a[3].id as int].v()));
    &&& hv < pow(2, 254)
    &&& valid_point(gp, m)
    &&& st.room(256)
    &&& forall|j: int| 0 <= j <= 254 ==> #[trigger] doubling_ok(sm_acc(gp, hv, j, m), m)
}

/// The value of the witness cell that a slot names.
pub open spec fn slot_value(ws: Table, s: SlotId) -> int {
    ws.at(s.spec_column() - 1, s.spec_row() - 1).v()
}

/// No cell is recorded twice in the copy lists.
#[verifier::opaque]
pub open spec fn cells_distinct(cc: Seq<Vec<SlotId>>, rows: int) -> bool {
    classes_disjoint(cc, rows)
}

/// No recorded cell lies at the zero-indexed `(row, column)`.
pub open spec fn cell_free(cc: Seq<Vec<SlotId>>, row: int, column: int) -> bool {
    forall|id: int, j: int|
        0 <= id < cc.len() && 0 <= j < cc[id]@.len() ==> (#[trigger] cc[id]@[j]).spec_row() - 1 != row
            || cc[id]@[j].spec_column() - 1 != column
}

/// No slot of the copy lists lies in the zero-indexed row `row`.
pub open spec fn no_slot_at(cc: Seq<Vec<SlotId>>, row: int) -> bool {
    forall|id: int, j: int|
        0 <= id < cc.len() && 0 <= j < cc[id]@.len() ==> (#[trigger] cc[id]@[j]).spec_row() - 1 != row
}

/// The copy constraints of the trace hold: all the cells listed for one
/// wire hold the same value.
pub open spec fn copies_agree(tr: FieldTrace) -> bool {
    let cc = tr.copy_constraints@;
    forall|id: int, j: int, k: int|
        #![trigger cc[id]@[j], cc[id]@[k]]
        0 <= id < cc.len() && 0 <= j < cc[id]@.len() && 0 <= k < cc[id]@.len() ==> slot_value(tr.ws, cc[id]@[j])
            == slot_value(tr.ws, cc[id]@[k])
}

/// Row `r` is one of the first `prc` public-input rows, of the first `mpc`
/// message-pass rows from `pio` on, or of the first `rc` gate rows from
/// `pio + mpo` on.
pub open spec fn handed_out(r: int, prc: int, mpc: int, rc: int, pio: int, mpo: int) -> bool {
    ||| 0 <= r < prc
    ||| pio <= r < pio + mpc
    ||| pio + mpo <= r < pio + mpo + rc
}

/// Every recorded cell lies in a row handed out and holds the value of its
/// wire, and a wire not yet computed has no recorded cell.
#[verifier::opaque]
pub open spec fn copies_ok(
    cc: Seq<Vec<SlotId>>,
    ws: Table,
    vals: Seq<PastaFE>,
    computed: Set<int>,
    prc: int,
    mpc: int,
    rc: int,
    pio: int,
    mpo: int,
) -> bool {
    &&& forall|id: int, j: int|
        0 <= id < cc.len() && 0 <= j < cc[id]@.len() ==> {
            let s = #[trigger] cc[id]@[j];
            &&& handed_out(s.spec_row() - 1, prc, mpc, rc, pio, mpo)
            &&& slot_value(ws, s) == vals[id].v()
        }
    &&& forall|id: int| 0 <= id < cc.len() && !computed.contains(id) ==> (#[trigger] cc[id])@.len() == 0
}

/// A row not yet handed out holds no recorded cell.
pub proof fn lemma_fresh_row(
    cc: Seq<Vec<SlotId>>,
    ws: Table,
    vals: Seq<PastaFE>,
    computed: Set<int>,
    prc: int,
    mpc: int,
    rc: int,
    pio: int,
    mpo: int,
    row: int,
)
    requires
        copies_ok(cc, ws, vals, computed, prc, mpc, rc, pio, mpo),
        !handed_out(row, prc, mpc, rc, pio, mpo),
    ensures
        no_slot_at(cc, row),
{
    reveal(copies_ok);
}

/// Handing out more rows keeps the recorded cells in rows handed out.
pub proof fn lemma_copies_ok_grow(
    cc: Seq<Vec<SlotId>>,
    ws: Table,
    vals: Seq<PastaFE>,
    computed: Set<int>,
    prc: int,
    mpc: int,
    rc: int,
    prc2: int,
    mpc2: int,
    rc2: int,
    pio: int,
    mpo: int,
)
    requires
        copies_ok(cc, ws, vals, computed, prc, mpc, rc, pio, mpo),
        prc <= prc2,
        mpc <= mpc2,
        rc <= rc2,
    ensures
        copies_ok(cc, ws, vals, computed, prc2, mpc2, rc2, pio, mpo),
{
    reveal(copies_ok);
    assert forall|id: int, j: int| 0 <= id < cc.len() && 0 <= j < cc[id]@.len() implies {
        let s = #[trigger] cc[id]@[j];
        &&& handed_out(s.spec_row() - 1, prc2, mpc2, rc2, pio, mpo)
        &&& slot_value(ws, s) == vals[id].v()
    } by {
        assert(handed_out(cc[id]@[j].spec_row() - 1, prc, mpc, rc, pio, mpo));
    }
}

/// Writing a row that holds no recorded cell keeps every recorded cell.
pub proof fn lemma_copies_ok_write(
    cc: Seq<Vec<SlotId>>,
    ws0: Table,
    ws1: Table,
    vals: Seq<PastaFE>,
    computed: Set<int>,
    prc: int,
    mpc: int,
    rc: int,
    pio: int,
    mpo: int,
    row: int,
    rows: int,
)
    requires
        copies_ok(cc, ws0, vals, computed, prc, mpc, rc, pio, mpo),
        no_slot_at(cc, row),
        forall|i: int, j: int| 0 <= i < cc.len() && 0 <= j < cc[i]@.len() ==> slot_ok(#[trigger] cc[i]@[j], rows),
        forall|c: int, r: int| 0 <= c < 16 && 0 <= r < rows && r != row ==> #[trigger] ws1.at(c, r) == ws0.at(c, r),
    ensures
        copies_ok(cc, ws1, vals, computed, prc, mpc, rc, pio, mpo),
{
    reveal(copies_ok);
    assert forall|id: int, j: int| 0 <= id < cc.len() && 0 <= j < cc[id]@.len() implies {
        let s = #[trigger] cc[id]@[j];
        &&& handed_out(s.spec_row() - 1, prc, mpc, rc, pio, mpo)
        &&& slot_value(ws1, s) == vals[id].v()
    } by {
        let s = cc[id]@[j];
        assert(slot_ok(s, rows));
        assert(s.spec_row() - 1 != row);
        assert(ws1.at(s.spec_column() - 1, s.spec_row() - 1) == ws0.at(s.spec_column() - 1, s.spec_row() - 1));
    }
}

/// The state of one field while the trace is built.
struct FieldState {
    fid: PastaFieldId,
    tr: FieldTrace,
    vals: Vec<PastaFE>,
    mp_inputs: Vec<PastaFE>,
    row_count: usize,
    public_row_count: usize,
    mp_row_count: usize,
    pi_offset: usize,
    mp_offset: usize,
    /// The wires whose values have been computed.
    computed: Ghost<Set<int>>,
}

impl FieldState {
    spec fn inv(&self) -> bool {
        &&& self.tr.wf(self.fid)
        &&& self.tr.copy_constraints@.len() == self.vals@.len()
        &&& forall|i: int| 0 <= i < self.vals@.len() ==> val_ok(#[trigger] self.vals@[i], self.fid)
        &&& forall|i: int| 0 <= i < self.mp_inputs@.len() ==> #[trigger] self.mp_inputs@[i].in_field(self.fid)
        &&& self.tr.public_inputs@.len() == self.public_row_count <= self.pi_offset
        &&& self.mp_inputs@.len() == self.mp_row_count <= self.mp_offset
        &&& rows_ok(
            self.tr.ws,
            self.tr.qs,
            self.tr.rows as int,
            self.tr.public_inputs@,
            self.mp_inputs@,
            self.pi_offset as int,
            modulus(self.fid),
        )
        &&& copies_ok(
            self.tr.copy_constraints@,
            self.tr.ws,
            self.vals@,
            self.computed@,
            self.public_row_count as int,
            self.mp_row_count as int,
            self.row_count as int,
            self.pi_offset as int,
            self.mp_offset as int,
        )
        &&& cells_distinct(self.tr.copy_constraints@, self.tr.rows as int)
    }

    /// The zero-indexed row `r` has been handed out: a public-input row, a
    /// message-pass row or a gate row.
    spec fn written(&self, r: int) -> bool {
        handed_out(
            r,
            self.public_row_count as int,
            self.mp_row_count as int,
            self.row_count as int,
            self.pi_offset as int,
            self.mp_offset as int,
        )
    }

    /// The public-input term of row `r` in the current state.
    spec fn pi_at(&self, r: int) -> int {
        pi_term(self.tr.public_inputs@, self.mp_inputs@, self.pi_offset as int, r)
    }

    /// The outputs and the values of the computed wires are those of `old`,
    /// and every wire computed in `old` is still computed.
    spec fn keeps(&self, old: FieldState) -> bool {
        &&& self.tr.out_wires == old.tr.out_wires
        &&& forall|id: int| 0 <= id < old.vals@.len() && old.computed@.contains(id) ==> #[trigger] self.vals@[id] == old.vals@[id]
        &&& old.computed@.subset_of(self.computed@)
    }

    /// There are at least `k` gate rows left.
    spec fn room(&self, k: int) -> bool {
        self.row_count + self.pi_offset + self.mp_offset + k <= self.tr.rows
    }

    /// No public-input or message-pass row was added.
    spec fn same_io(&self, old: FieldState) -> bool {
        &&& self.public_row_count == old.public_row_count
        &&& self.mp_row_count == old.mp_row_count
    }

    spec fn same_shape(&self, old: FieldState) -> bool {
        &&& self.fid == old.fid
        &&& self.tr.rows == old.tr.rows
        &&& self.vals@.len() == old.vals@.len()
        &&& self.tr.out_wires@.len() == old.tr.out_wires@.len()
        &&& self.pi_offset == old.pi_offset
        &&& self.mp_offset == old.mp_offset
    }

    /// The next row of the area of gate rows, after the public-input and
    /// message-pass rows; it has no public-input term.
    fn gate_row(&mut self) -> (r: Result<usize, TraceError>)
        requires
            old(self).inv(),
        ensures
            r is Ok <==> old(self).room(1),
            r matches Ok(row) ==> row == old(self).row_count + old(self).pi_offset + old(self).mp_offset && final(self).row_count == old(self).row_count + 1,
            r is Err ==> final(self).row_count == old(self).row_count,
            final(self).keeps(*old(self)),
            final(self).inv(),
            final(self).same_shape(*old(self)),
            final(self).same_io(*old(self)),
            final(self).tr == old(self).tr,
            final(self).vals == old(self).vals,
            final(self).mp_inputs == old(self).mp_inputs,
            final(self).computed == old(self).computed,
            r matches Ok(row) ==> row < final(self).tr.rows && final(self).pi_at(row as int) == 0,
            r matches Ok(row) ==> no_slot_at(final(self).tr.copy_constraints@, row as int) && final(self).written(row as int),
    {
        let a = match self.row_count.checked_add(self.pi_offset) {
            Some(a) => a,
            None => return Err(TraceError::RowOverflow),
        };
        let row = match a.checked_add(self.mp_offset) {
            Some(row) => row,
            None => return Err(TraceError::RowOverflow),
        };
        if row >= self.tr.rows {
            return Err(TraceError::RowOverflow);
        }
        proof {
            lemma_fresh_row(
                self.tr.copy_constraints@,
                self.tr.ws,
                self.vals@,
                self.computed@,
                self.public_row_count as int,
                self.mp_row_count as int,
                self.row_count as int,
                self.pi_offset as int,
                self.mp_offset as int,
                row as int,
            );
            lemma_copies_ok_grow(
                self.tr.copy_constraints@,
                self.tr.ws,
                self.vals@,
                self.computed@,
                self.public_row_count as int,
                self.mp_row_count as int,
                self.row_count as int,
                self.public_row_count as int,
                self.mp_row_count as int,
                self.row_count + 1,
                self.pi_offset as int,
                self.mp_offset as int,
            );
        }
        self.row_count = self.row_count + 1;
        Ok(row)
    }

    /// Writes the next public-input row `[v, 0, ..]` with `q_l = 1` and
    /// appends `-v` to the public inputs; the public-input rows come first
    /// and there are as many as the circuit counts.
    fn push_public_row(&mut self, v: PastaFE) -> (r: Result<usize, TraceError>)
        requires
            old(self).inv(),
            v.in_field(old(self).fid),
        ensures
            r is Err ==> final(self).tr.public_inputs == old(self).tr.public_inputs,
            final(self).row_count == old(self).row_count,
            r is Ok <==> old(self).public_row_count < old(self).pi_offset && old(self).public_row_count < old(self).tr.rows,
            r matches Ok(row) ==> row == old(self).public_row_count,
            final(self).keeps(*old(self)),
            final(self).inv(),
            final(self).same_shape(*old(self)),
            final(self).vals == old(self).vals,
            final(self).mp_inputs == old(self).mp_inputs,
            final(self).tr.out_wires == old(self).tr.out_wires,
            final(self).tr.copy_constraints == old(self).tr.copy_constraints,
            final(self).mp_row_count == old(self).mp_row_count,
            final(self).computed == old(self).computed,
            r is Ok ==> final(self).public_row_count == old(self).public_row_count + 1,
            r is Err ==> final(self).public_row_count == old(self).public_row_count,
            r matches Ok(row) ==> no_slot_at(final(self).tr.copy_constraints@, row as int) && final(self).written(row as int)
                && final(self).tr.ws.at(0, row as int) == v,
            r matches Ok(row) ==> {
                &&& row < final(self).tr.rows
                &&& final(self).tr.public_inputs@ == old(self).tr.public_inputs@.push(
                    final(self).tr.public_inputs@.last(),
                )
                &&& final(self).tr.public_inputs@.last().v() == (0 - v.v()) % modulus(old(self).fid)
                &&& arith_holds_at(final(self).tr, row as int, final(self).tr.public_inputs@.last().v(), modulus(final(self).fid))
            },
    {
        let row = self.public_row_count;
        if row >= self.pi_offset || row >= self.tr.rows {
            return Err(TraceError::RowOverflow);
        }
        let ghost m = modulus(self.fid);
        let neg = v.neg();
        let o = zero_cell();
        let w = w_row(v, o, o);
        let q = q_row(one_cell(), o, o, o, o);
        assert(arith_holds(w, q, neg.v(), m)) by {
            crate::field::lemma_modulus_bounds(v.fid.unwrap());
            lemma_add_neg_residue(v.v(), m);
        }
        proof {
            lemma_fresh_row(
                self.tr.copy_constraints@,
                self.tr.ws,
                self.vals@,
                self.computed@,
                self.public_row_count as int,
                self.mp_row_count as int,
                self.row_count as int,
                self.pi_offset as int,
                self.mp_offset as int,
                row as int,
            );
        }
        let ghost s0 = *self;
        write_tables(&mut self.tr, row, w, q, Ghost(self.fid));
        proof {
            lemma_copies_ok_write(
                s0.tr.copy_constraints@,
                s0.tr.ws,
                self.tr.ws,
                self.vals@,
                self.computed@,
                self.public_row_count as int,
                self.mp_row_count as int,
                self.row_count as int,
                self.pi_offset as int,
                self.mp_offset as int,
                row as int,
                self.tr.rows as int,
            );
        }
        self.tr.public_inputs.push(neg);
        self.public_row_count = self.public_row_count + 1;
        proof {
            lemma_copies_ok_grow(
                self.tr.copy_constraints@,
                self.tr.ws,
                self.vals@,
                self.computed@,
                s0.public_row_count as int,
                self.mp_row_count as int,
                self.row_count as int,
                self.public_row_count as int,
                self.mp_row_count as int,
                self.row_count as int,
                self.pi_offset as int,
                self.mp_offset as int,
            );
            let pis1 = self.tr.public_inputs@;
            assert(pis1 == s0.tr.public_inputs@.push(neg));
            assert forall|r: int| 0 <= r < self.tr.rows && r != row implies #[trigger] pi_term(
                pis1,
                self.mp_inputs@,
                self.pi_offset as int,
                r,
            ) == pi_term(s0.tr.public_inputs@, s0.mp_inputs@, s0.pi_offset as int, r) by {
                if r < s0.tr.public_inputs@.len() {
                    assert(pis1[r] == s0.tr.public_inputs@[r]);
                }
            }
            assert(pi_term(pis1, self.mp_inputs@, self.pi_offset as int, row as int) == neg.v());
            lemma_rows_ok_write(
                s0.tr.ws,
                s0.tr.qs,
                self.tr.ws,
                self.tr.qs,
                self.tr.rows as int,
                s0.tr.public_inputs@,
                s0.mp_inputs@,
                pis1,
                self.mp_inputs@,
                self.pi_offset as int,
                m,
                row as int,
            );
            assert forall|i: int| 0 <= i < pis1.len() implies #[trigger] pis1[i].in_field(self.fid) by {
                if i < s0.tr.public_inputs@.len() {
                    assert(pis1[i] == s0.tr.public_inputs@[i]);
                }
            }
        }
        Ok(row)
    }

    /// Writes the next message-pass row `[v, 0, ..]` with `q_l = 1`, after
    /// the public-input rows, and appends `-v` to the message-pass inputs.
    fn push_mp_row(&mut self, v: PastaFE) -> (r: Result<usize, TraceError>)
        requires
            old(self).inv(),
            v.in_field(old(self).fid),
        ensures
            final(self).row_count == old(self).row_count,
            r is Ok <==> old(self).mp_row_count < old(self).mp_offset && old(self).pi_offset + old(self).mp_row_count < old(self).tr.rows,
            r matches Ok(row) ==> row == old(self).pi_offset + old(self).mp_row_count,
            r is Err ==> final(self).mp_row_count == old(self).mp_row_count,
            final(self).keeps(*old(self)),
            final(self).inv(),
            final(self).same_shape(*old(self)),
            final(self).vals == old(self).vals,
            final(self).tr.public_inputs == old(self).tr.public_inputs,
            final(self).tr.out_wires == old(self).tr.out_wires,
            final(self).tr.copy_constraints == old(self).tr.copy_constraints,
            final(self).public_row_count == old(self).public_row_count,
            final(self).computed == old(self).computed,
            r is Ok ==> final(self).mp_row_count == old(self).mp_row_count + 1,
            r matches Ok(row) ==> no_slot_at(final(self).tr.copy_constraints@, row as int) && final(self).written(row as int)
                && final(self).tr.ws.at(0, row as int) == v,
            r matches Ok(row) ==> {
                &&& row < final(self).tr.rows
                &&& final(self).mp_inputs@ == old(self).mp_inputs@.push(final(self).mp_inputs@.last())
                &&& final(self).mp_inputs@.last().v() == (0 - v.v()) % modulus(old(self).fid)
            },
    {
        if self.mp_row_count >= self.mp_offset {
            return Err(TraceError::RowOverflow);
        }
        let row = match self.mp_row_count.checked_add(self.pi_offset) {
            Some(row) => row,
            None => return Err(TraceError::RowOverflow),
        };
        if row >= self.tr.rows {
            return Err(TraceError::RowOverflow);
        }
        let ghost m = modulus(self.fid);
        let neg = v.neg();
        let o = zero_cell();
        let w = w_row(v, o, o);
        let q = q_row(one_cell(), o, o, o, o);
        assert(arith_holds(w, q, neg.v(), m)) by {
            crate::field::lemma_modulus_bounds(v.fid.unwrap());
            lemma_add_neg_residue(v.v(), m);
        }
        proof {
            lemma_fresh_row(
                self.tr.copy_constraints@,
                self.tr.ws,
                self.vals@,
                self.computed@,
                self.public_row_count as int,
                self.mp_row_count as int,
                self.row_count as int,
                self.pi_offset as int,
                self.mp_offset as int,
                row as int,
            );
        }
        let ghost s0 = *self;
        write_tables(&mut self.tr, row, w, q, Ghost(self.fid));
        proof {
            lemma_copies_ok_write(
                s0.tr.copy_constraints@,
                s0.tr.ws,
                self.tr.ws,
                self.vals@,
                self.computed@,
                self.public_row_count as int,
                self.mp_row_count as int,
                self.row_count as int,
                self.pi_offset as int,
                self.mp_offset as int,
                row as int,
                self.tr.rows as int,
            );
        }
        self.mp_inputs.push(neg);
        self.mp_row_count = self.mp_row_count + 1;
        proof {
            lemma_copies_ok_grow(
                self.tr.copy_constraints@,
                self.tr.ws,
                self.vals@,
                self.computed@,
                self.public_row_count as int,
                s0.mp_row_count as int,
                self.row_count as int,
                self.public_row_count as int,
                self.mp_row_count as int,
                self.row_count as int,
                self.pi_offset as int,
                self.mp_offset as int,
            );
            let mps1 = self.mp_inputs@;
            assert(mps1 == s0.mp_inputs@.push(neg));
            assert forall|r: int| 0 <= r < self.tr.rows && r != row implies #[trigger] pi_term(
                self.tr.public_inputs@,
                mps1,
                self.pi_offset as int,
                r,
            ) == pi_term(s0.tr.public_inputs@, s0.mp_inputs@, s0.pi_offset as int, r) by {
                if self.pi_offset <= r < self.pi_offset + s0.mp_inputs@.len() {
                    assert(mps1[r - self.pi_offset] == s0.mp_inputs@[r - self.pi_offset]);
                }
            }
            assert(pi_term(self.tr.public_inputs@, mps1, self.pi_offset as int, row as int) == neg.v());
            lemma_rows_ok_write(
                s0.tr.ws,
                s0.tr.qs,
                self.tr.ws,
                self.tr.qs,
                self.tr.rows as int,
                s0.tr.public_inputs@,
                s0.mp_inputs@,
                self.tr.public_inputs@,
                mps1,
                self.pi_offset as int,
                m,
                row as int,
            );
            assert forall|i: int| 0 <= i < mps1.len() implies #[trigger] mps1[i].in_field(self.fid) by {
                if i < s0.mp_inputs@.len() {
                    assert(mps1[i] == s0.mp_inputs@[i]);
                }
            }
        }
        Ok(row)
    }

    fn val(&self, w: Wire) -> (v: PastaFE)
        requires
            self.inv(),
            w.id < self.vals@.len(),
        ensures
            v == self.vals@[w.id as int],
            val_ok(v, self.fid),
    {
        self.vals[w.id]
    }

    fn set_val(&mut self, w: Wire, v: PastaFE)
        requires
            old(self).inv(),
            w.id < old(self).vals@.len(),
            val_ok(v, old(self).fid),
            !old(self).computed@.contains(w.id as int),
        ensures
            final(self).keeps(*old(self)),
            final(self).inv(),
            final(self).same_shape(*old(self)),
            final(self).same_io(*old(self)),
            final(self).vals@ == old(self).vals@.update(w.id as int, v),
            final(self).tr == old(self).tr,
            final(self).mp_inputs == old(self).mp_inputs,
            final(self).row_count == old(self).row_count,
            final(self).computed@ == old(self).computed@.insert(w.id as int),
    {
        let ghost s0 = *self;
        self.vals.set(w.id, v);
        self.computed = Ghost(self.computed@.insert(w.id as int));
        proof {
            reveal(copies_ok);
            let cc = self.tr.copy_constraints@;
            assert forall|id: int, j: int| 0 <= id < cc.len() && 0 <= j < cc[id]@.len() implies {
                let s = #[trigger] cc[id]@[j];
                &&& handed_out(
                    s.spec_row() - 1,
                    self.public_row_count as int,
                    self.mp_row_count as int,
                    self.row_count as int,
                    self.pi_offset as int,
                    self.mp_offset as int,
                )
                &&& slot_value(self.tr.ws, s) == self.vals@[id].v()
            } by {
                assert(id != w.id);
            }
        }
    }

    /// Records that the cell `(row, column)` (zero-indexed) holds the value
    /// of wire `w`.
    fn copy(&mut self, w: Wire, row: usize, column: usize)
        requires
            old(self).inv(),
            w.id < old(self).vals@.len(),
            row < old(self).tr.rows,
            column < 8,
            old(self).computed@.contains(w.id as int),
            old(self).written(row as int),
            old(self).tr.ws.at(column as int, row as int).v() == old(self).vals@[w.id as int].v(),
            cell_free(old(self).tr.copy_constraints@, row as int, column as int),
        ensures
            forall|r: int, c: int|
                cell_free(old(self).tr.copy_constraints@, r, c) && !(r == row && c == column) ==> #[trigger] cell_free(
                    final(self).tr.copy_constraints@,
                    r,
                    c,
                ),
            final(self).keeps(*old(self)),
            final(self).inv(),
            final(self).same_shape(*old(self)),
            final(self).same_io(*old(self)),
            final(self).computed == old(self).computed,
            final(self).row_count == old(self).row_count,
            final(self).vals@ == old(self).vals@,
            final(self).tr.ws == old(self).tr.ws,
            final(self).tr.rs == old(self).tr.rs,
            final(self).tr.qs == old(self).tr.qs,
            final(self).tr.public_inputs == old(self).tr.public_inputs,
            final(self).tr.out_wires == old(self).tr.out_wires,
            final(self).mp_inputs == old(self).mp_inputs,
            final(self).tr.copy_constraints@.len() == old(self).tr.copy_constraints@.len(),
            forall|i: int|
                0 <= i < old(self).tr.copy_constraints@.len() && i != w.id ==> #[trigger] final(self).tr.copy_constraints@[i]
                    == old(self).tr.copy_constraints@[i],
            final(self).tr.copy_constraints@[w.id as int]@.len() == old(self).tr.copy_constraints@[w.id as int]@.len() + 1,
            final(self).tr.copy_constraints@[w.id as int]@.drop_last() == old(self).tr.copy_constraints@[w.id as int]@,
            final(self).tr.copy_constraints@[w.id as int]@.last().spec_row() == row + 1,
            final(self).tr.copy_constraints@[w.id as int]@.last().spec_column() == column + 1,
    {
        let s = SlotId::new(row + 1, column + 1);
        let ghost before = self.tr.copy_constraints@;
        let ghost s0 = *self;
        self.tr.copy_constraints[w.id].push(s);
        proof {
            reveal(copies_ok);
            let cc = self.tr.copy_constraints@;
            assert forall|id: int, j: int| 0 <= id < cc.len() && 0 <= j < cc[id]@.len() implies {
                let t = #[trigger] cc[id]@[j];
                &&& handed_out(
                    t.spec_row() - 1,
                    self.public_row_count as int,
                    self.mp_row_count as int,
                    self.row_count as int,
                    self.pi_offset as int,
                    self.mp_offset as int,
                )
                &&& slot_value(self.tr.ws, t) == self.vals@[id].v()
            } by {
                if id != w.id {
                    assert(cc[id] == before[id]);
                    assert(cc[id]@[j] == before[id]@[j]);
                } else if j < before[id]@.len() {
                    assert(cc[id]@[j] == before[id]@[j]);
                } else {
                    assert(cc[id]@[j] == s);
                }
            }
            assert forall|id: int| 0 <= id < cc.len() && !self.computed@.contains(id) implies (
            #[trigger] cc[id])@.len() == 0 by {
                assert(cc[id] == before[id]);
            }
            assert forall|i: int, j: int|
                0 <= i < self.tr.copy_constraints@.len() && 0 <= j < self.tr.copy_constraints@[i]@.len()
                    implies slot_ok(#[trigger] self.tr.copy_constraints@[i]@[j], self.tr.rows as int) by {
                if i != w.id {
                    assert(self.tr.copy_constraints@[i] == before[i]);
                } else if j < before[i]@.len() {
                    assert(self.tr.copy_constraints@[i]@[j] == before[i]@[j]);
                }
            }
            let rows = self.tr.rows as int;
            let wid = w.id as int;
            let nl = before[wid]@.len() as int;
            assert(cc[wid]@[nl] == s);
            assert forall|id: int, j: int| 0 <= id < cc.len() && 0 <= j < cc[id]@.len() implies
                #[trigger] cc[id]@[j] == (if id == wid && j == nl { s } else { before[id]@[j] })
                && (id == wid && j == nl || j < before[id]@.len()) by {
                if id != wid {
                    assert(cc[id] == before[id]);
                }
            }
            reveal(cells_distinct);
            assert forall|c1: int, i1: int, c2: int, i2: int|
                0 <= c1 < cc.len() && 0 <= i1 < cc[c1]@.len() && 0 <= c2 < cc.len() && 0 <= i2 < cc[c2]@.len()
                    && (c1 != c2 || i1 != i2) implies #[trigger] cc[c1]@[i1].flat(rows) != #[trigger] cc[c2]@[i2].flat(rows) by {
                let t1 = cc[c1]@[i1];
                let t2 = cc[c2]@[i2];
                assert(slot_ok(t1, rows) && slot_ok(t2, rows));
                lemma_flat_cell(t1, rows);
                lemma_flat_cell(t2, rows);
                if c1 == wid && i1 == nl {
                    assert(t2 == before[c2]@[i2]);
                } else if c2 == wid && i2 == nl {
                    assert(t1 == before[c1]@[i1]);
                } else {
                    assert(t1 == before[c1]@[i1]);
                    assert(t2 == before[c2]@[i2]);
                }
            }
            assert(cells_distinct(cc, rows));
            assert forall|r: int, c: int| cell_free(before, r, c) && !(r == row && c == column) implies
                #[trigger] cell_free(cc, r, c) by {
                assert forall|id: int, j: int| 0 <= id < cc.len() && 0 <= j < cc[id]@.len() implies
                    (#[trigger] cc[id]@[j]).spec_row() - 1 != r || cc[id]@[j].spec_column() - 1 != c by {
                    if !(id == wid && j == nl) {
                        assert(cc[id]@[j] == before[id]@[j]);
                    }
                }
            }
        }
    }

    /// Writes one row of witness values and selectors; the row must satisfy
    /// the arithmetic gate with its public-input term.
    fn write_row(&mut self, row: usize, w: [PastaFE; 16], q: [PastaFE; 9])
        requires
            old(self).inv(),
            row < old(self).tr.rows,
            arith_holds(w, q, old(self).pi_at(row as int), modulus(old(self).fid)) || failed_assertion_row(w, q),
            no_slot_at(old(self).tr.copy_constraints@, row as int),
        ensures
            final(self).keeps(*old(self)),
            final(self).computed == old(self).computed,
            final(self).tr.copy_constraints == old(self).tr.copy_constraints,
            final(self).public_row_count == old(self).public_row_count,
            final(self).mp_row_count == old(self).mp_row_count,
            final(self).row_count == old(self).row_count,
            final(self).inv(),
            final(self).same_shape(*old(self)),
            final(self).same_io(*old(self)),
            final(self).vals@ == old(self).vals@,
            final(self).tr.public_inputs == old(self).tr.public_inputs,
            final(self).tr.out_wires == old(self).tr.out_wires,
            final(self).tr.rs == old(self).tr.rs,
            final(self).mp_inputs == old(self).mp_inputs,
            forall|c: int| 0 <= c < 16 ==> #[trigger] final(self).tr.ws.at(c, row as int) == w[c],
            forall|c: int| 0 <= c < 9 ==> #[trigger] final(self).tr.qs.at(c, row as int) == q[c],
            forall|pi: int, m: int| #[trigger] arith_holds(w, q, pi, m) ==> arith_holds_at(final(self).tr, row as int, pi, m),
    {
        let ghost s0 = *self;
        write_tables(&mut self.tr, row, w, q, Ghost(self.fid));
        proof {
            lemma_copies_ok_write(
                s0.tr.copy_constraints@,
                s0.tr.ws,
                self.tr.ws,
                self.vals@,
                self.computed@,
                self.public_row_count as int,
                self.mp_row_count as int,
                self.row_count as int,
                self.pi_offset as int,
                self.mp_offset as int,
                row as int,
                self.tr.rows as int,
            );
            lemma_rows_ok_write(
                s0.tr.ws,
                s0.tr.qs,
                self.tr.ws,
                self.tr.qs,
                self.tr.rows as int,
                s0.tr.public_inputs@,
                s0.mp_inputs@,
                self.tr.public_inputs@,
                self.mp_inputs@,
                self.pi_offset as int,
                modulus(self.fid),
                row as int,
            );
        }
    }

    /// Writes one row of round coefficients.
    fn write_round_row(&mut self, row: usize, r: [PastaFE; 15])
        requires
            old(self).inv(),
            row < old(self).tr.rows,
        ensures
            final(self).keeps(*old(self)),
            final(self).computed == old(self).computed,
            final(self).tr.copy_constraints == old(self).tr.copy_constraints,
            final(self).public_row_count == old(self).public_row_count,
            final(self).mp_row_count == old(self).mp_row_count,
            final(self).row_count == old(self).row_count,
            final(self).inv(),
            final(self).same_shape(*old(self)),
            final(self).same_io(*old(self)),
            final(self).vals@ == old(self).vals@,
            final(self).tr.public_inputs == old(self).tr.public_inputs,
            final(self).tr.out_wires == old(self).tr.out_wires,
            final(self).tr.ws == old(self).tr.ws,
            final(self).tr.qs == old(self).tr.qs,
            final(self).mp_inputs == old(self).mp_inputs,
            forall|c: int| 0 <= c < 15 ==> #[trigger] final(self).tr.rs.at(c, row as int) == r[c],
    {
        self.tr.rs.multi_assign(row, r.as_slice());
        proof {
            assert forall|c: int| 0 <= c < 15 implies #[trigger] self.tr.rs.at(c, row as int) == r[c] by {
                assert(self.tr.rs.ma_at(c, row as int) == r@[c]);
            }
        }
    }
}


/// Writes row `row` of the witness and selector tables; every other cell
/// and every other part of the trace keeps its contents.
fn write_tables(tr: &mut FieldTrace, row: usize, w: [PastaFE; 16], q: [PastaFE; 9], Ghost(f): Ghost<PastaFieldId>)
    requires
        old(tr).wf(f),
        row < old(tr).rows,
    ensures
        final(tr).wf(f),
        final(tr).rows == old(tr).rows,
        final(tr).rs == old(tr).rs,
        final(tr).public_inputs == old(tr).public_inputs,
        final(tr).copy_constraints == old(tr).copy_constraints,
        final(tr).out_wires == old(tr).out_wires,
        forall|c: int| 0 <= c < 16 ==> #[trigger] final(tr).ws.at(c, row as int) == w[c],
        forall|c: int| 0 <= c < 9 ==> #[trigger] final(tr).qs.at(c, row as int) == q[c],
        forall|c: int, r: int|
            0 <= c < 16 && 0 <= r < old(tr).rows && r != row ==> #[trigger] final(tr).ws.at(c, r) == old(tr).ws.at(c, r),
        forall|c: int, r: int|
            0 <= c < 9 && 0 <= r < old(tr).rows && r != row ==> #[trigger] final(tr).qs.at(c, r) == old(tr).qs.at(c, r),
        forall|pi: int, m: int| #[trigger] arith_holds(w, q, pi, m) ==> arith_holds_at(*final(tr), row as int, pi, m),
        forall|pi: int, m: int| #[trigger] arith_holds(w, q, pi, m) ==> row_arith(final(tr).ws, final(tr).qs, row as int, pi, m),
        failed_assertion_row(w, q) ==> failed_assertion(final(tr).ws, final(tr).qs, row as int),
{
    let ghost t0 = *tr;
    tr.ws.multi_assign(row, w.as_slice());
    tr.qs.multi_assign(row, q.as_slice());
    proof {
        assert forall|c: int| 0 <= c < 16 implies #[trigger] tr.ws.at(c, row as int) == w[c] by {
            assert(tr.ws.ma_at(c, row as int) == w@[c]);
        }
        assert forall|c: int| 0 <= c < 9 implies #[trigger] tr.qs.at(c, row as int) == q[c] by {
            assert(tr.qs.ma_at(c, row as int) == q@[c]);
        }
        assert forall|c: int, r: int| 0 <= c < 16 && 0 <= r < t0.rows && r != row implies #[trigger] tr.ws.at(c, r)
            == t0.ws.at(c, r) by {
            assert(tr.ws.ma_at(c, r) == t0.ws.ma_at(c, r));
        }
        assert forall|c: int, r: int| 0 <= c < 9 && 0 <= r < t0.rows && r != row implies #[trigger] tr.qs.at(c, r)
            == t0.qs.at(c, r) by {
            assert(tr.qs.ma_at(c, r) == t0.qs.ma_at(c, r));
        }
        assert(tr.ws.at(0, row as int) == w[0] && tr.ws.at(1, row as int) == w[1] && tr.ws.at(2, row as int) == w[2]);
        assert(tr.qs.at(0, row as int) == q[0] && tr.qs.at(1, row as int) == q[1] && tr.qs.at(2, row as int) == q[2]);
        assert(tr.qs.at(3, row as int) == q[3] && tr.qs.at(4, row as int) == q[4]);
    }
}

impl FieldState {
    /// A witness gate: its output wire takes the assigned value.
    fn gate_witness(&mut self, o: Wire, v: PastaFE)
        requires
            old(self).inv(),
            !old(self).computed@.contains(o.id as int),
            o.id < old(self).vals@.len(),
            v.in_field(old(self).fid),
        ensures
            final(self).tr.public_inputs == old(self).tr.public_inputs,
            final(self).row_count == old(self).row_count,
            final(self).keeps(*old(self)),
            final(self).computed@ == old(self).computed@.insert(o.id as int),
            final(self).inv(),
            final(self).same_shape(*old(self)),
            final(self).same_io(*old(self)),
            final(self).vals@[o.id as int] == v,
    {
        self.set_val(o, v);
    }

    /// A public-input gate: a public-input row `[v, 0, ..]` with `q_l = 1`,
    /// and `-v` appended to the public inputs.
    fn gate_public_input(&mut self, o: Wire, v: PastaFE) -> (r: Result<usize, TraceError>)
        requires
            old(self).inv(),
            !old(self).computed@.contains(o.id as int),
            o.id < old(self).vals@.len(),
            v.in_field(old(self).fid),
        ensures
            r is Ok ==> final(self).tr.public_inputs@.last().v() == (0 - v.v()) % modulus(old(self).fid),
            r is Err ==> final(self).tr.public_inputs == old(self).tr.public_inputs,
            final(self).row_count == old(self).row_count,
            r matches Ok(row) ==> row == old(self).public_row_count,
            r is Ok <==> old(self).public_row_count < old(self).pi_offset && old(self).public_row_count < old(self).tr.rows,
            final(self).keeps(*old(self)),
            r is Ok ==> final(self).computed@ == old(self).computed@.insert(o.id as int),
            final(self).inv(),
            final(self).same_shape(*old(self)),
            final(self).mp_row_count == old(self).mp_row_count,
            r is Ok ==> final(self).public_row_count == old(self).public_row_count + 1,
            r matches Ok(row) ==> {
                &&& row < final(self).tr.rows
                &&& final(self).vals@[o.id as int] == v
                &&& final(self).tr.public_inputs@ == old(self).tr.public_inputs@.push(
                    final(self).tr.public_inputs@.last(),
                )
                &&& arith_holds_at(final(self).tr, row as int, final(self).tr.public_inputs@.last().v(), modulus(final(self).fid))
            },
    {
        let row = self.push_public_row(v)?;
        self.set_val(o, v);
        self.copy(o, row, 0);
        Ok(row)
    }

    /// A constant gate: the row `[c, 0, ..]` with `q_l = 1` and `q_c = -c`.
    fn gate_constant(&mut self, o: Wire, c: PastaFE) -> (r: Result<usize, TraceError>)
        requires
            old(self).inv(),
            !old(self).computed@.contains(o.id as int),
            o.id < old(self).vals@.len(),
            c.in_field(old(self).fid),
        ensures
            final(self).tr.public_inputs == old(self).tr.public_inputs,
            r is Ok ==> final(self).row_count == old(self).row_count + 1,
            r matches Ok(row) ==> row == old(self).row_count + old(self).pi_offset + old(self).mp_offset,
            r is Ok <==> old(self).room(1),
            final(self).keeps(*old(self)),
            r is Ok ==> final(self).computed@ == old(self).computed@.insert(o.id as int),
            final(self).inv(),
            final(self).same_shape(*old(self)),
            final(self).same_io(*old(self)),
            r matches Ok(row) ==> {
                &&& row < final(self).tr.rows
                &&& final(self).vals@[o.id as int] == c
                &&& arith_holds_at(final(self).tr, row as int, 0, modulus(final(self).fid))
            },
    {
        let ghost m = modulus(self.fid);
        self.set_val(o, c);
        let row = self.gate_row()?;
        let o_cell = zero_cell();
        let w = w_row(c, o_cell, o_cell);
        let q = q_row(one_cell(), o_cell, o_cell, o_cell, c.neg());
        assert(arith_holds(w, q, 0, m)) by {
            crate::field::lemma_modulus_bounds(c.fid.unwrap());
            lemma_add_neg_residue(c.v(), m);
        }
        self.write_row(row, w, q);
        self.copy(o, row, 0);
        Ok(row)
    }

    /// An output gate: the value of the input wire becomes output `n`.
    fn gate_output(&mut self, i: Wire, n: usize) -> (r: Result<(), TraceError>)
        requires
            old(self).inv(),
            i.id < old(self).vals@.len(),
        ensures
            final(self).tr.public_inputs == old(self).tr.public_inputs,
            final(self).row_count == old(self).row_count,
            final(self).computed == old(self).computed,
            final(self).vals == old(self).vals,
            final(self).computed == old(self).computed,
            final(self).inv(),
            final(self).same_shape(*old(self)),
            final(self).same_io(*old(self)),
            r is Ok <==> n < old(self).tr.out_wires@.len(),
            r is Ok ==> final(self).tr.out_wires@ == old(self).tr.out_wires@.update(
                n as int,
                old(self).vals@[i.id as int],
            ),
    {
        let v = self.val(i);
        if n >= self.tr.out_wires.len() {
            return Err(TraceError::OutputOverflow);
        }
        self.tr.out_wires.set(n, v);
        Ok(())
    }

    /// An equality assertion: the row `[l, r, 0, ..]` with `q_l = 1` and
    /// `q_r = -1`, which vanishes exactly when the two values agree.
    fn gate_assert_eq(&mut self, l: Wire, r: Wire) -> (res: Result<usize, TraceError>)
        requires
            old(self).inv(),
            old(self).computed@.contains(l.id as int),
            old(self).computed@.contains(r.id as int),
            l.id < old(self).vals@.len(),
            r.id < old(self).vals@.len(),
        ensures
            final(self).tr.public_inputs == old(self).tr.public_inputs,
            res is Ok ==> final(self).row_count == old(self).row_count + 1,
            res matches Ok(row) ==> row == old(self).row_count + old(self).pi_offset + old(self).mp_offset,
            res is Ok <==> old(self).room(1),
            final(self).keeps(*old(self)),
            final(self).computed == old(self).computed,
            final(self).inv(),
            final(self).same_shape(*old(self)),
            final(self).same_io(*old(self)),
            final(self).vals@ == old(self).vals@,
            res matches Ok(row) ==> row < final(self).tr.rows && (arith_holds_at(
                final(self).tr,
                row as int,
                0,
                modulus(final(self).fid),
            ) <==> old(self).vals@[l.id as int].v() == old(self).vals@[r.id as int].v()),
    {
        let row = self.gate_row()?;
        let a = self.val(l);
        let b = self.val(r);
        let o_cell = zero_cell();
        let w = w_row(a, b, o_cell);
        let q = q_row(one_cell(), neg_one_cell(), o_cell, o_cell, o_cell);
        let ghost m = modulus(self.fid);
        assert(arith_holds(w, q, 0, m) <==> a.v() == b.v()) by {
            crate::field::lemma_modulus_bounds(self.fid);
            assert(arith_holds(w, q, 0, m) <==> (a.v() - b.v()) % m == 0);
            if (a.v() - b.v()) % m == 0 {
                vstd::arithmetic::div_mod::lemma_mod_equivalence(a.v(), b.v(), m);
                lemma_reduced(a.v(), m);
                lemma_reduced(b.v(), m);
            }
            if a.v() == b.v() {
                lemma_reduced(0, m);
            }
        }
        self.write_row(row, w, q);
        self.copy(l, row, 0);
        self.copy(r, row, 1);
        proof {
            assert(arith_holds_at(self.tr, row as int, 0, m) == arith_holds(w, q, 0, m));
        }
        Ok(row)
    }

    /// An addition gate: `c = a + b` and the row `[a, b, c, ..]` with
    /// `q_l = q_r = 1`, `q_o = -1`.
    fn gate_add(&mut self, l: Wire, r: Wire, o: Wire) -> (res: Result<usize, TraceError>)
        requires
            old(self).inv(),
            old(self).computed@.contains(l.id as int),
            old(self).computed@.contains(r.id as int),
            !old(self).computed@.contains(o.id as int),
            l.id < old(self).vals@.len(),
            r.id < old(self).vals@.len(),
            o.id < old(self).vals@.len(),
        ensures
            final(self).tr.public_inputs == old(self).tr.public_inputs,
            res is Ok ==> final(self).row_count == old(self).row_count + 1,
            res is Ok ==> final(self).vals@[o.id as int].fid == Some(old(self).fid),
            res matches Ok(row) ==> row == old(self).row_count + old(self).pi_offset + old(self).mp_offset,
            res is Ok <==> old(self).room(1) && (old(self).vals@[l.id as int].fid is Some || old(self).vals@[r.id as int].fid is Some),
            final(self).keeps(*old(self)),
            res is Ok ==> final(self).computed@ == old(self).computed@.insert(o.id as int),
            final(self).inv(),
            final(self).same_shape(*old(self)),
            final(self).same_io(*old(self)),
            res matches Ok(row) ==> {
                &&& row < final(self).tr.rows
                &&& final(self).vals@[o.id as int].v() == (old(self).vals@[l.id as int].v()
                    + old(self).vals@[r.id as int].v()) % modulus(old(self).fid)
                &&& arith_holds_at(final(self).tr, row as int, 0, modulus(final(self).fid))
            },
    {
        let row = self.gate_row()?;
        let a = self.val(l);
        let b = self.val(r);
        let c = try_add(a, b, Ghost(self.fid))?;
        self.set_val(o, c);
        let o_cell = zero_cell();
        let w = w_row(a, b, c);
        let q = q_row(one_cell(), one_cell(), neg_one_cell(), o_cell, o_cell);
        let ghost m = modulus(self.fid);
        assert(arith_holds(w, q, 0, m)) by {
            crate::field::lemma_modulus_bounds(self.fid);
            lemma_sub_own_residue(a.v() + b.v(), m);
        }
        self.write_row(row, w, q);
        self.copy(l, row, 0);
        self.copy(r, row, 1);
        self.copy(o, row, 2);
        Ok(row)
    }

    /// A multiplication gate: `c = a * b` and the row `[a, b, c, ..]` with
    /// `q_o = -1`, `q_m = 1`.
    fn gate_mul(&mut self, l: Wire, r: Wire, o: Wire) -> (res: Result<usize, TraceError>)
        requires
            old(self).inv(),
            old(self).computed@.contains(l.id as int),
            old(self).computed@.contains(r.id as int),
            !old(self).computed@.contains(o.id as int),
            l.id < old(self).vals@.len(),
            r.id < old(self).vals@.len(),
            o.id < old(self).vals@.len(),
        ensures
            final(self).tr.public_inputs == old(self).tr.public_inputs,
            res is Ok ==> final(self).row_count == old(self).row_count + 1,
            res is Ok ==> final(self).vals@[o.id as int].fid == Some(old(self).fid),
            res matches Ok(row) ==> row == old(self).row_count + old(self).pi_offset + old(self).mp_offset,
            res is Ok <==> old(self).room(1) && (old(self).vals@[l.id as int].fid is Some || old(self).vals@[r.id as int].fid is Some),
            final(self).keeps(*old(self)),
            res is Ok ==> final(self).computed@ == old(self).computed@.insert(o.id as int),
            final(self).inv(),
            final(self).same_shape(*old(self)),
            final(self).same_io(*old(self)),
            res matches Ok(row) ==> {
                &&& row < final(self).tr.rows
                &&& final(self).vals@[o.id as int].v() == (old(self).vals@[l.id as int].v()
                    * old(self).vals@[r.id as int].v()) % modulus(old(self).fid)
                &&& arith_holds_at(final(self).tr, row as int, 0, modulus(final(self).fid))
            },
    {
        let row = self.gate_row()?;
        let a = self.val(l);
        let b = self.val(r);
        let c = try_mul(a, b, Ghost(self.fid))?;
        self.set_val(o, c);
        let o_cell = zero_cell();
        let w = w_row(a, b, c);
        let q = q_row(o_cell, o_cell, neg_one_cell(), one_cell(), o_cell);
        let ghost m = modulus(self.fid);
        assert(arith_holds(w, q, 0, m)) by {
            crate::field::lemma_modulus_bounds(self.fid);
            lemma_sub_own_residue(a.v() * b.v(), m);
        }
        self.write_row(row, w, q);
        self.copy(l, row, 0);
        self.copy(r, row, 1);
        self.copy(o, row, 2);
        Ok(row)
    }

    /// A negation gate: `-x`, checked against the zero wire, and the row
    /// `[x, -x, 0, ..]` with `q_l = q_r = 1`, `q_o = -1`.
    #[verifier::rlimit(40)]
    fn gate_negate(&mut self, x_w: Wire, zero_w: Wire, o: Wire) -> (res: Result<usize, TraceError>)
        requires
            old(self).inv(),
            old(self).computed@.contains(x_w.id as int),
            old(self).computed@.contains(zero_w.id as int),
            !old(self).computed@.contains(o.id as int),
            x_w.id < old(self).vals@.len(),
            zero_w.id < old(self).vals@.len(),
            o.id < old(self).vals@.len(),
        ensures
            final(self).tr.public_inputs == old(self).tr.public_inputs,
            res is Ok ==> final(self).row_count == old(self).row_count + 1,
            res is Ok ==> final(self).vals@[o.id as int].fid == Some(old(self).fid),
            res matches Ok(row) ==> row == old(self).row_count + old(self).pi_offset + old(self).mp_offset,
            res is Ok <==> old(self).room(1) && old(self).vals@[zero_w.id as int].v() == 0 && old(self).vals@[x_w.id as int].fid is Some,
            final(self).keeps(*old(self)),
            res is Ok ==> final(self).computed@ == old(self).computed@.insert(o.id as int),
            final(self).inv(),
            final(self).same_shape(*old(self)),
            final(self).same_io(*old(self)),
            res matches Ok(row) ==> {
                &&& row < final(self).tr.rows
                &&& final(self).vals@[o.id as int].v() == (0 - old(self).vals@[x_w.id as int].v()) % modulus(old(self).fid)
                &&& arith_holds_at(final(self).tr, row as int, 0, modulus(final(self).fid))
            },
    {
        let row = self.gate_row()?;
        let x = self.val(x_w);
        let zero = self.val(zero_w);
        let o_cell = zero_cell();
        proof {
            if zero.v() == o_cell.v() {
                crate::field::lemma_limbs_injective(zero.inner, o_cell.inner);
            }
        }
        if !zero.eq(&o_cell) {
            return Err(TraceError::UnexpectedValue);
        }
        if x.fid.is_none() {
            return Err(TraceError::NoFieldId);
        }
        let x_neg = x.neg();
        self.set_val(o, x_neg);
        let w = w_row(x, x_neg, o_cell);
        let q = q_row(one_cell(), one_cell(), neg_one_cell(), o_cell, o_cell);
        let ghost m = modulus(self.fid);
        proof {
            crate::field::lemma_modulus_bounds(self.fid);
            lemma_negate_row(w, q, m);
        }
        self.write_row(row, w, q);
        self.copy(x_w, row, 0);
        self.copy(o, row, 1);
        self.copy(zero_w, row, 2);
        Ok(row)
    }

    /// An inversion gate: `1 / x`, checked against the one wire, and the row
    /// `[x, 1/x, 1, ..]` with `q_o = -1`, `q_m = 1`.
    fn gate_invert(&mut self, x_w: Wire, one_w: Wire, o: Wire) -> (res: Result<usize, TraceError>)
        requires
            old(self).inv(),
            old(self).computed@.contains(x_w.id as int),
            old(self).computed@.contains(one_w.id as int),
            !old(self).computed@.contains(o.id as int),
            x_w.id < old(self).vals@.len(),
            one_w.id < old(self).vals@.len(),
            o.id < old(self).vals@.len(),
        ensures
            final(self).tr.public_inputs == old(self).tr.public_inputs,
            res is Ok ==> final(self).row_count == old(self).row_count + 1,
            res is Ok ==> final(self).vals@[o.id as int].fid == Some(old(self).fid),
            res is Ok ==> final(self).vals@[o.id as int].v() == finv(old(self).vals@[x_w.id as int].v(), modulus(old(self).fid)),
            res matches Ok(row) ==> row == old(self).row_count + old(self).pi_offset + old(self).mp_offset,
            res is Ok <==> old(self).room(1) && old(self).vals@[x_w.id as int].fid is Some && old(self).vals@[x_w.id as int].v() != 0 && old(self).vals@[one_w.id as int].v() == 1,
            final(self).keeps(*old(self)),
            res is Ok ==> final(self).computed@ == old(self).computed@.insert(o.id as int),
            final(self).inv(),
            final(self).same_shape(*old(self)),
            final(self).same_io(*old(self)),
            res matches Ok(row) ==> {
                &&& row < final(self).tr.rows
                &&& (old(self).vals@[x_w.id as int].v() * final(self).vals@[o.id as int].v()) % modulus(old(self).fid) == 1
                &&& arith_holds_at(final(self).tr, row as int, 0, modulus(final(self).fid))
            },
    {
        let row = self.gate_row()?;
        let x = self.val(x_w);
        let one = self.val(one_w);
        if x.fid.is_none() {
            return Err(TraceError::NoFieldId);
        }
        let x_inv = match x.inverse() {
            Some(v) => v,
            None => return Err(TraceError::NoInverse),
        };
        self.set_val(o, x_inv);
        let i_cell = one_cell();
        proof {
            if one.v() == i_cell.v() {
                crate::field::lemma_limbs_injective(one.inner, i_cell.inner);
            }
        }
        if !one.eq(&i_cell) {
            return Err(TraceError::UnexpectedValue);
        }
        let o_cell = zero_cell();
        let w = w_row(x, x_inv, i_cell);
        let q = q_row(o_cell, o_cell, neg_one_cell(), i_cell, o_cell);
        let ghost m = modulus(self.fid);
        assert(arith_holds(w, q, 0, m)) by {
            crate::field::lemma_modulus_bounds(self.fid);
            lemma_sub_own_residue(x.v() * x_inv.v(), m);
        }
        self.write_row(row, w, q);
        self.copy(x_w, row, 0);
        self.copy(o, row, 1);
        self.copy(one_w, row, 2);
        Ok(row)
    }
}


impl FieldState {
    /// Sets an output wire of a gate by its output index: `v[k]` for index `k`.
    fn set_out<const N: usize>(&mut self, w: Wire, v: [PastaFE; N]) -> (r: Result<(), TraceError>)
        requires
            old(self).inv(),
            w.id < old(self).vals@.len(),
            forall|k: int| 0 <= k < N ==> val_ok(#[trigger] v[k], old(self).fid),
            !old(self).computed@.contains(w.id as int),
        ensures
            final(self).keeps(*old(self)),
            final(self).inv(),
            final(self).same_shape(*old(self)),
            final(self).same_io(*old(self)),
            final(self).tr == old(self).tr,
            final(self).mp_inputs == old(self).mp_inputs,
            final(self).row_count == old(self).row_count,
            r is Ok <==> (w.output_id as int) < N,
            r is Ok ==> final(self).vals@ == old(self).vals@.update(w.id as int, v[w.output_id as int]),
            r is Ok ==> final(self).computed@ == old(self).computed@.insert(w.id as int),
    {
        let k = w.output_id as usize;
        if k >= N {
            return Err(TraceError::BadOutputId);
        }
        self.set_val(w, v[k]);
        Ok(())
    }

    /// A Poseidon gate: five rounds of the permutation on the input wires;
    /// the row holds the inputs and the states after the first four rounds,
    /// the round coefficients hold the round constants, and the outputs
    /// take the state after the fifth round.
    #[verifier::spinoff_prover]
    #[verifier::rlimit(100)]
    fn gate_poseidon(&mut self, a: [Wire; 3], o: [Wire; 3], r: [PastaFE; 15], mds: &[[PastaFE; 3]; 3])
        -> (res: Result<(usize, [PastaFE; 3]), TraceError>)
        requires
            old(self).inv(),
            forall|k: int| 0 <= k < 3 ==> old(self).computed@.contains((#[trigger] a[k]).id as int),
            forall|k: int| 0 <= k < 3 ==> !old(self).computed@.contains((#[trigger] o[k]).id as int),
            forall|k: int| 0 <= k < 3 ==> (#[trigger] o[k]).output_id == k,
            o[0].id != o[1].id && o[0].id != o[2].id && o[1].id != o[2].id,
            forall|k: int| 0 <= k < 3 ==> (#[trigger] a[k]).id < old(self).vals@.len(),
            forall|k: int| 0 <= k < 3 ==> (#[trigger] o[k]).id < old(self).vals@.len(),
            forall|k: int| 0 <= k < 15 ==> (#[trigger] r[k]).in_field(old(self).fid),
            mat_in_field(*mds, old(self).fid),
        ensures
            final(self).tr.public_inputs == old(self).tr.public_inputs,
            res is Ok ==> final(self).row_count == old(self).row_count + 1,
            res is Ok ==> forall|k: int| 0 <= k < 3 ==> {
                &&& (#[trigger] final(self).vals@[o[k].id as int]).fid == Some(old(self).fid)
                &&& final(self).vals@[o[k].id as int].v() == poseidon_out(
                    *mds,
                    r,
                    seq![old(self).vals@[a[0].id as int].v(), old(self).vals@[a[1].id as int].v(), old(self).vals@[a[2].id as int].v()],
                    modulus(old(self).fid),
                )[k]
            },
            res matches Ok((row, _)) ==> row == old(self).row_count + old(self).pi_offset + old(self).mp_offset,
            res is Ok <==> old(self).room(1) && old(self).vals@[a[0].id as int].fid is Some && old(self).vals@[a[1].id as int].fid is Some && old(self).vals@[a[2].id as int].fid is Some,
            final(self).keeps(*old(self)),
            res is Ok ==> final(self).computed@ == old(self).computed@.insert(o[0].id as int).insert(o[1].id as int).insert(o[2].id as int),
            final(self).inv(),
            final(self).same_shape(*old(self)),
            final(self).same_io(*old(self)),
            res matches Ok((row, v)) ==> {
                &&& row < final(self).tr.rows
                &&& poseidon_constraint(
                    *mds,
                    rs_row(final(self).tr, row as int),
                    ws_row(final(self).tr, row as int),
                    seq![v[0].v(), v[1].v(), v[2].v()],
                ) % modulus(final(self).fid) == 0
            },
    {
        let ghost f = self.fid;
        let row = self.gate_row()?;
        let w0 = self.val(a[0]);
        let w1 = self.val(a[1]);
        let w2 = self.val(a[2]);
        if w0.fid.is_none() || w1.fid.is_none() || w2.fid.is_none() {
            return Err(TraceError::NoFieldId);
        }
        proof {
            assert(r[0].in_field(f) && r[1].in_field(f) && r[2].in_field(f) && r[3].in_field(f) && r[4].in_field(f));
            assert(r[5].in_field(f) && r[6].in_field(f) && r[7].in_field(f) && r[8].in_field(f) && r[9].in_field(f));
            assert(r[10].in_field(f) && r[11].in_field(f) && r[12].in_field(f) && r[13].in_field(f) && r[14].in_field(f));
        }
        let (w3, w4, w5) = poseidon_round(mds, r[0], r[1], r[2], w0, w1, w2);
        let (w6, w7, w8) = poseidon_round(mds, r[3], r[4], r[5], w3, w4, w5);
        let (w9, w10, w11) = poseidon_round(mds, r[6], r[7], r[8], w6, w7, w8);
        let (w12, w13, w14) = poseidon_round(mds, r[9], r[10], r[11], w9, w10, w11);
        let (v0, v1, v2) = poseidon_round(mds, r[12], r[13], r[14], w12, w13, w14);
        let outs = [v0, v1, v2];
        self.set_out(o[0], outs)?;
        self.set_out(o[1], outs)?;
        self.set_out(o[2], outs)?;
        let o_cell = zero_cell();
        let w = [w0, w1, w2, w3, w4, w5, w6, w7, w8, w9, w10, w11, w12, w13, w14, o_cell];
        self.write_row(row, w, q_unit(5));
        self.write_round_row(row, r);
        self.copy(a[0], row, 0);
        self.copy(a[1], row, 1);
        self.copy(a[2], row, 2);
        proof {
            let m = modulus(f);
            crate::field::lemma_modulus_bounds(f);
            let ww = ws_row(self.tr, row as int);
            let rr = rs_row(self.tr, row as int);
            assert(ww[0] == w0.v() && ww[1] == w1.v() && ww[2] == w2.v() && ww[3] == w3.v());
            assert(ww[4] == w4.v() && ww[5] == w5.v() && ww[6] == w6.v() && ww[7] == w7.v());
            assert(ww[8] == w8.v() && ww[9] == w9.v() && ww[10] == w10.v() && ww[11] == w11.v());
            assert(ww[12] == w12.v() && ww[13] == w13.v() && ww[14] == w14.v());
            assert(rr[0] == r[0].v() && rr[1] == r[1].v() && rr[2] == r[2].v() && rr[3] == r[3].v());
            assert(rr[4] == r[4].v() && rr[5] == r[5].v() && rr[6] == r[6].v() && rr[7] == r[7].v());
            assert(rr[8] == r[8].v() && rr[9] == r[9].v() && rr[10] == r[10].v() && rr[11] == r[11].v());
            assert(rr[12] == r[12].v() && rr[13] == r[13].v() && rr[14] == r[14].v());
            let nv = seq![v0.v(), v1.v(), v2.v()];
            lemma_five_multiples(
                poseidon_round_constraint(*mds, ww[0], ww[1], ww[2], ww[3], ww[4], ww[5], rr[0], rr[1], rr[2]),
                poseidon_round_constraint(*mds, ww[3], ww[4], ww[5], ww[6], ww[7], ww[8], rr[3], rr[4], rr[5]),
                poseidon_round_constraint(*mds, ww[6], ww[7], ww[8], ww[9], ww[10], ww[11], rr[6], rr[7], rr[8]),
                poseidon_round_constraint(*mds, ww[9], ww[10], ww[11], ww[12], ww[13], ww[14], rr[9], rr[10], rr[11]),
                poseidon_round_constraint(*mds, ww[12], ww[13], ww[14], nv[0], nv[1], nv[2], rr[12], rr[13], rr[14]),
                m,
            );
        }
        Ok((row, outs))
    }

    /// The end of a Poseidon chain: the row `[w0, w1, w2, 0, ..]` with no
    /// selector, and the outputs take the inputs' values.
    fn gate_poseidon_end(&mut self, a: [Wire; 3], o: [Wire; 3]) -> (res: Result<usize, TraceError>)
        requires
            old(self).inv(),
            forall|k: int| 0 <= k < 3 ==> old(self).computed@.contains((#[trigger] a[k]).id as int),
            forall|k: int| 0 <= k < 3 ==> !old(self).computed@.contains((#[trigger] o[k]).id as int),
            forall|k: int| 0 <= k < 3 ==> (#[trigger] o[k]).output_id == k,
            o[0].id != o[1].id && o[0].id != o[2].id && o[1].id != o[2].id,
            forall|k: int| 0 <= k < 3 ==> (#[trigger] a[k]).id < old(self).vals@.len(),
            forall|k: int| 0 <= k < 3 ==> (#[trigger] o[k]).id < old(self).vals@.len(),
        ensures
            final(self).tr.public_inputs == old(self).tr.public_inputs,
            res is Ok ==> final(self).row_count == old(self).row_count + 1,
            res is Ok ==> forall|k: int| 0 <= k < 3 ==> #[trigger] final(self).vals@[o[k].id as int] == old(self).vals@[a[k].id as int],
            res matches Ok(row) ==> row == old(self).row_count + old(self).pi_offset + old(self).mp_offset,
            res is Ok <==> old(self).room(1),
            final(self).keeps(*old(self)),
            res is Ok ==> final(self).computed@ == old(self).computed@.insert(o[0].id as int).insert(o[1].id as int).insert(o[2].id as int),
            final(self).inv(),
            final(self).same_shape(*old(self)),
            final(self).same_io(*old(self)),
            res matches Ok(row) ==> row < final(self).tr.rows,
    {
        let row = self.gate_row()?;
        let w0 = self.val(a[0]);
        let w1 = self.val(a[1]);
        let w2 = self.val(a[2]);
        let outs = [w0, w1, w2];
        self.set_out(o[0], outs)?;
        self.set_out(o[1], outs)?;
        self.set_out(o[2], outs)?;
        let o_cell = zero_cell();
        self.write_row(row, w_row(w0, w1, w2), q_row(o_cell, o_cell, o_cell, o_cell, o_cell));
        self.copy(a[0], row, 0);
        self.copy(a[1], row, 1);
        self.copy(a[2], row, 2);
        Ok(row)
    }

    /// A complete affine addition gate `R = P + Q`: the row
    /// `[xp, yp, xq, yq, xr, yr, alpha, beta, gamma, delta, lambda, 0, ..]`.
    /// Points off the curve are refused.
    fn gate_affine_add(&mut self, a: [Wire; 4], o: [Wire; 2]) -> (res: Result<(usize, PastaAffine), TraceError>)
        requires
            old(self).inv(),
            forall|k: int| 0 <= k < 4 ==> old(self).computed@.contains((#[trigger] a[k]).id as int),
            forall|k: int| 0 <= k < 2 ==> !old(self).computed@.contains((#[trigger] o[k]).id as int),
            forall|k: int| 0 <= k < 2 ==> (#[trigger] o[k]).output_id == k,
            o[0].id != o[1].id,
            forall|k: int| 0 <= k < 4 ==> (#[trigger] a[k]).id < old(self).vals@.len(),
            forall|k: int| 0 <= k < 2 ==> (#[trigger] o[k]).id < old(self).vals@.len(),
        ensures
            final(self).tr.public_inputs == old(self).tr.public_inputs,
            res is Ok ==> final(self).row_count == old(self).row_count + 1,
            res is Ok ==> {
                let f = old(self).fid;
                let p = PastaAffine { x: old(self).vals@[a[0].id as int], y: old(self).vals@[a[1].id as int], fid: Some(f) };
                let q = PastaAffine { x: old(self).vals@[a[2].id as int], y: old(self).vals@[a[3].id as int], fid: Some(f) };
                let c = coords(curve_add(p.point(), q.point(), modulus(f)));
                &&& final(self).vals@[o[0].id as int].v() == c.0
                &&& final(self).vals@[o[1].id as int].v() == c.1
                &&& final(self).vals@[o[0].id as int].fid == Some(f)
                &&& final(self).vals@[o[1].id as int].fid == Some(f)
            },
            res matches Ok((row, _)) ==> row == old(self).row_count + old(self).pi_offset + old(self).mp_offset,
            res is Ok <==> {
                let f = old(self).fid;
                let p = PastaAffine { x: old(self).vals@[a[0].id as int], y: old(self).vals@[a[1].id as int], fid: Some(f) };
                let q = PastaAffine { x: old(self).vals@[a[2].id as int], y: old(self).vals@[a[3].id as int], fid: Some(f) };
                &&& old(self).room(1)
                &&& old(self).vals@[a[0].id as int].fid is Some || old(self).vals@[a[1].id as int].fid is Some || old(self).vals@[a[2].id as int].fid is Some || old(self).vals@[a[3].id as int].fid is Some
                &&& valid_point(p.point(), modulus(f)) && valid_point(q.point(), modulus(f))
                &&& add_params_ok(p, q)
            },
            final(self).keeps(*old(self)),
            res is Ok ==> final(self).computed@ == old(self).computed@.insert(o[0].id as int).insert(o[1].id as int),
            final(self).inv(),
            final(self).same_shape(*old(self)),
            final(self).same_io(*old(self)),
            res matches Ok((row, r)) ==> {
                let f = old(self).fid;
                let p = PastaAffine { x: old(self).vals@[a[0].id as int], y: old(self).vals@[a[1].id as int], fid: Some(f) };
                let q = PastaAffine { x: old(self).vals@[a[2].id as int], y: old(self).vals@[a[3].id as int], fid: Some(f) };
                let s = curve_add(p.point(), q.point(), modulus(f));
                &&& row < final(self).tr.rows
                &&& valid_point(p.point(), modulus(f)) && valid_point(q.point(), modulus(f))
                &&& s matches Some((x, y)) ==> r.x.v() == x && r.y.v() == y
                &&& s is None ==> r.x.v() == 0 && r.y.v() == 0
            },
    {
        let ghost f = self.fid;
        let row = self.gate_row()?;
        let xp = self.val(a[0]);
        let yp = self.val(a[1]);
        let xq = self.val(a[2]);
        let yq = self.val(a[3]);
        let p = PastaAffine::new(xp, yp);
        let q = PastaAffine::new(xq, yq);
        if p.fid.is_none() && q.fid.is_none() {
            return Err(TraceError::NoFieldId);
        }
        if !p.check_on_curve(self.fid) || !q.check_on_curve(self.fid) {
            return Err(TraceError::NotOnCurve);
        }
        let r = p.add(q);
        let params = affine_add_params(p, q, Ghost(f))?;
        let outs = [r.x, r.y];
        self.set_out(o[0], outs)?;
        self.set_out(o[1], outs)?;
        let o_cell = zero_cell();
        let w = [xp, yp, xq, yq, r.x, r.y, params[0], params[1], params[2], params[3], params[4],
            o_cell, o_cell, o_cell, o_cell, o_cell];
        self.write_row(row, w, q_unit(6));
        self.copy(a[0], row, 0);
        self.copy(a[1], row, 1);
        self.copy(a[2], row, 2);
        self.copy(a[3], row, 3);
        self.copy(o[0], row, 4);
        self.copy(o[1], row, 5);
        Ok((row, r))
    }
}

/// Passing an `Fp` value to `Fq`: the value halved (rounded down) and its
/// lowest bit, each on a message-pass row `[v, 0, ..]` of `Fq` with
/// `q_l = 1` and `-v` appended to the message-pass inputs.
#[verifier::rlimit(40)]
#[verifier::spinoff_prover]
#[verifier::rlimit(60)]
fn gate_message_pass(fp: &FieldState, fq: &mut FieldState, a: Wire, o: [Wire; 2])
    -> (res: Result<(PastaFE, PastaFE), TraceError>)
    requires
        fp.inv(),
        old(fq).inv(),
        fp.fid == PastaFieldId::Fp,
        old(fq).fid == PastaFieldId::Fq,
        a.id < fp.vals@.len(),
        forall|k: int| 0 <= k < 2 ==> (#[trigger] o[k]).id < old(fq).vals@.len(),
        forall|k: int| 0 <= k < 2 ==> !old(fq).computed@.contains((#[trigger] o[k]).id as int),
        forall|k: int| 0 <= k < 2 ==> (#[trigger] o[k]).output_id == k,
        o[0].id != o[1].id,
    ensures
        final(fq).row_count == old(fq).row_count,
        res matches Ok((h, l)) ==> final(fq).vals@[o[0].id as int] == h && final(fq).vals@[o[1].id as int] == l,
        final(fq).tr.public_inputs == old(fq).tr.public_inputs,
        res is Ok ==> final(fq).computed@ == old(fq).computed@.insert(o[0].id as int).insert(o[1].id as int),
        res is Ok <==> old(fq).mp_row_count + 2 <= old(fq).mp_offset && old(fq).pi_offset + old(fq).mp_row_count + 2
            <= old(fq).tr.rows,
        final(fq).keeps(*old(fq)),
        final(fq).inv(),
        final(fq).same_shape(*old(fq)),
        final(fq).public_row_count == old(fq).public_row_count,
        res is Ok ==> final(fq).mp_row_count == old(fq).mp_row_count + 2,
        res matches Ok((h, l)) ==> {
            &&& h.v() == fp.vals@[a.id as int].v() / 2
            &&& l.v() == fp.vals@[a.id as int].v() % 2
            &&& h.in_field(PastaFieldId::Fq) && l.in_field(PastaFieldId::Fq)
        },
{
    let x = fp.val(a);
    let (hl, bit) = crate::field::split_low_bit(x.inner);
    let h = PastaFE::new(hl, Some(PastaFieldId::Fq));
    let l = PastaFE::from_u64(bit, Some(PastaFieldId::Fq));
    proof {
        crate::field::lemma_modulus_bounds(PastaFieldId::Fq);
        crate::field::lemma_limbs_nonneg(x.inner);
        assert(fp_modulus() / 2 < fq_modulus());
    }
    let outs = [h, l];
    let row0 = fq.push_mp_row(h)?;
    fq.set_out(o[0], outs)?;
    fq.copy(o[0], row0, 0);
    let row1 = fq.push_mp_row(l)?;
    let ghost v1 = fq.vals@;
    fq.set_out(o[1], outs)?;
    fq.copy(o[1], row1, 0);
    proof {
        assert(fq.vals@[o[1].id as int] == l);
        assert(fq.vals@[o[0].id as int] == v1[o[0].id as int]);
    }
    Ok((h, l))
}


impl FieldState {
    /// One double-and-add step of the scalar multiplication by bit `b` with
    /// weight `2^i`: `Q = 2P`, `R = Q + G`, the next point is `R` when
    /// `take_r` and `Q` otherwise, and the bit accumulator grows by
    /// `b * 2^i`. The row is
    /// `[xp, yp, a, xg, yg, b, xq, yq, xr, yr, beta_q, lambda_q, alpha_r, gamma_r, delta_r, lambda_r]`.
    fn scalar_mul_step(
        &mut self,
        p: PastaAffine,
        a: PastaFE,
        g: PastaAffine,
        b: PastaFE,
        i: usize,
        take_r: bool,
    ) -> (res: Result<(PastaAffine, PastaFE), TraceError>)
        requires
            old(self).inv(),
            p.usable_in(old(self).fid),
            p.fid == Some(old(self).fid),
            p.x.in_field(old(self).fid) && p.y.in_field(old(self).fid),
            a.in_field(old(self).fid),
            g.usable_in(old(self).fid),
            val_ok(g.x, old(self).fid) && val_ok(g.y, old(self).fid),
            g.fid is None || g.fid == Some(old(self).fid),
            val_ok(b, old(self).fid),
        ensures
            final(self).tr.public_inputs == old(self).tr.public_inputs,
            final(self).keeps(*old(self)),
            final(self).computed == old(self).computed,
            final(self).inv(),
            final(self).same_shape(*old(self)),
            final(self).same_io(*old(self)),
            res is Ok <==> old(self).room(1) && doubling_holds(p, modulus(old(self).fid)),
            res is Ok ==> final(self).row_count == old(self).row_count + 1,
            res matches Ok((np, na)) ==> {
                let f = old(self).fid;
                let m = modulus(f);
                &&& np.usable_in(f) && np.fid == Some(f)
                &&& np.x.in_field(f) && np.y.in_field(f)
                &&& na.in_field(f)
                &&& na.v() == (a.v() + (b.v() * (pow(2, i as nat) % m)) % m) % m
                &&& (np.x.v(), np.y.v()) == dbl_add_step((p.x.v(), p.y.v()), g.point(), take_r, m)
            },
    {
        let ghost f = self.fid;
        let fid = self.fid;
        let row = self.gate_row()?;
        let pow_2i = PastaFE::from_u64(2, Some(fid)).pow(i);
        let dbl = affine_double_params(p, Ghost(f))?;
        let q = p.add(p);
        let add = affine_add_params(q, g, Ghost(f))?;
        let r = q.add(g);
        let next_p = if take_r { r } else { q };
        let bp = b.mul(pow_2i);
        let next_a = a.add(bp);
        let w = [p.x, p.y, a, g.x, g.y, b, q.x, q.y, r.x, r.y, dbl[0], dbl[1], add[0], add[2], add[3], add[4]];
        let o_cell = zero_cell();
        proof { crate::field::lemma_modulus_bounds(f); }
        let qq = q_unit(7);
        assert(arith_holds(w, qq, 0, modulus(f))) by {
            assert(qq[0] == o_cell && qq[1] == o_cell && qq[2] == o_cell && qq[3] == o_cell && qq[4] == o_cell);
        }
        self.write_row(row, w, qq);
        let rc = [pow_2i, o_cell, o_cell, o_cell, o_cell, o_cell, o_cell, o_cell, o_cell, o_cell, o_cell, o_cell,
            o_cell, o_cell, o_cell];
        self.write_round_row(row, rc);
        Ok((next_p, next_a))
    }

    /// The scalar multiplication gate `[2h + l] G`, for a scalar given as
    /// its high part `h < 2^254` and its low bit `l`: one double-and-add row
    /// per bit of `h` from the top, one for `l`, and a final row
    /// `[x, y, acc, 0, ..]`; the outputs take the resulting point. The bit
    /// accumulator ends at `h + l`.
    #[verifier::spinoff_prover]
    #[verifier::rlimit(100)]
    fn gate_scalar_mul(&mut self, a: [Wire; 4], o: [Wire; 2]) -> (res: Result<(usize, PastaFE), TraceError>)
        requires
            old(self).inv(),
            forall|k: int| 0 <= k < 2 ==> !old(self).computed@.contains((#[trigger] o[k]).id as int),
            o[0].id != o[1].id,
            o[0].output_id == 0 && o[1].output_id == 1,
            forall|k: int| 0 <= k < 4 ==> (#[trigger] a[k]).id < old(self).vals@.len(),
            forall|k: int| 0 <= k < 2 ==> (#[trigger] o[k]).id < old(self).vals@.len(),
        ensures
            final(self).tr.public_inputs == old(self).tr.public_inputs,
            res is Ok ==> final(self).row_count == old(self).row_count + 256,
            res is Ok ==> final(self).vals@[o[0].id as int].fid == Some(old(self).fid) && final(self).vals@[o[1].id as int].fid == Some(old(self).fid),
            res is Ok <==> scalar_mul_ok(*old(self), a),
            res is Ok ==> {
                let m = modulus(old(self).fid);
                let hv = old(self).vals@[a[0].id as int].v();
                let gp = as_point((old(self).vals@[a[2].id as int].v(), old(self).vals@[a[3].id as int].v()));
                (final(self).vals@[o[0].id as int].v(), final(self).vals@[o[1].id as int].v()) == dbl_add_step(
                    sm_acc(gp, hv, 0, m),
                    gp,
                    old(self).vals@[a[1].id as int].v() == 1,
                    m,
                )
            },
            final(self).keeps(*old(self)),
            res is Ok ==> final(self).computed@ == old(self).computed@.insert(o[0].id as int).insert(o[1].id as int),
            final(self).inv(),
            final(self).same_shape(*old(self)),
            final(self).same_io(*old(self)),
            res matches Ok((row, acc)) ==> {
                &&& row < final(self).tr.rows
                &&& acc.v() == (old(self).vals@[a[0].id as int].v() + old(self).vals@[a[1].id as int].v())
                    % modulus(old(self).fid)
            },
    {
        let ghost f = self.fid;
        let ghost m = modulus(f);
        let ghost start = *self;
        let fid = self.fid;
        let h = self.val(a[0]);
        let l = self.val(a[1]);
        let xg = self.val(a[2]);
        let yg = self.val(a[3]);
        let g = PastaAffine::new(xg, yg);
        let ghost hv = h.v();
        let bits = crate::field::bits_le(h.inner);
        proof {
            crate::field::lemma_limbs_nonneg(h.inner);
            crate::field::lemma_limbs_bound(h.inner);
            if hv < pow(2, 254) {
                lemma_small_top_bits(hv);
            }
        }
        if bits[255] || bits[254] {
            return Err(TraceError::ScalarTooLarge);
        }
        if !g.check_on_curve(fid) {
            return Err(TraceError::NotOnCurve);
        }
        proof {
            crate::field::lemma_modulus_bounds(f);
            crate::field::lemma_limbs_nonneg(h.inner);
            crate::field::lemma_limbs_bound(h.inner);
            assert(bits@[254] == ((hv / pow(2, 254)) % 2 == 1));
            assert(bits@[255] == ((hv / pow(2, 255)) % 2 == 1));
            lemma_top_bits_clear(hv);
            crate::field::lemma_pow2_step(254);
            let z = hv / pow(2, 254);
            assert(z * pow(2, 254) == 0) by (nonlinear_arith)
                requires
                    z == 0,
            ;
            lemma_reduced(0, m);
        }
        let mut point_acc = PastaAffine::identity(Some(fid));
        let mut bit_acc = PastaFE::zero(Some(fid));
        let mut k: usize = 254;
        while k > 0
            invariant
                self.inv(),
                self.same_shape(*old(self)),
                self.same_io(*old(self)),
                self.computed == old(self).computed,
                self.keeps(*old(self)),
                self.fid == f,
                fid == f,
                m == modulus(f),
                m > 0x1_0000_0000_0000_0000int,
                k <= 254,
                hv >= 0,
                bits@.len() == 256,
                forall|j: int| 0 <= j < 256 ==> #[trigger] bits@[j] == ((hv / pow(2, j as nat)) % 2 == 1),
                point_acc.usable_in(f) && point_acc.fid == Some(f),
                point_acc.x.in_field(f) && point_acc.y.in_field(f),
                g.usable_in(f),
                val_ok(g.x, f) && val_ok(g.y, f),
                g.fid is None || g.fid == Some(f),
                bit_acc.in_field(f),
                bit_acc.v() == ((hv / pow(2, k as nat)) * pow(2, k as nat)) % m,
                hv == old(self).vals@[a[0].id as int].v(),
                g.point() == as_point((old(self).vals@[a[2].id as int].v(), old(self).vals@[a[3].id as int].v())),
                hv < pow(2, 254),
                valid_point(g.point(), m),
                (point_acc.x.v(), point_acc.y.v()) == sm_acc(g.point(), hv, k as int, m),
                self.row_count == old(self).row_count + (254 - k),
                self.tr.public_inputs == old(self).tr.public_inputs,
                forall|j: int| k < j <= 254 ==> #[trigger] doubling_ok(sm_acc(g.point(), hv, j, m), m),
                self.tr.rows == old(self).tr.rows,
            decreases k,
        {
            let i = k - 1;
            let bit = bits[i];
            let b = PastaFE::from_bool(bit, Some(fid));
            let ghost old_acc = bit_acc.v();
            let (np, na) = self.scalar_mul_step(point_acc, bit_acc, g, b, i, bit)?;
            proof {
                assert(sm_acc(g.point(), hv, i as int, m) == dbl_add_step(
                    sm_acc(g.point(), hv, k as int, m),
                    g.point(),
                    (hv / pow(2, i as nat)) % 2 == 1,
                    m,
                ));
                let t = pow(2, i as nat);
                let x = (hv / pow(2, (i + 1) as nat)) * pow(2, (i + 1) as nat);
                assert(bits@[i as int] == ((hv / t) % 2 == 1));
                crate::field::lemma_pow2_step(i as nat);
                vstd::arithmetic::div_mod::lemma_mod_bound(hv / t, 2);
                assert(b.v() == (hv / t) % 2);
                lemma_bit_step(hv, i as nat);
                lemma_reduced(b.v(), m);
                crate::modular::lemma_mul_cong(b.v(), t, m);
                crate::modular::lemma_add_cong(x, b.v() * t, m);
                crate::modular::lemma_mod_idem(x, m);
                crate::modular::lemma_mod_idem(b.v() * t, m);
            }
            point_acc = np;
            bit_acc = na;
            k = i;
        }
        let one = one_cell();
        proof {
            if l.v() == 1 {
                crate::field::lemma_limbs_injective(l.inner, one.inner);
            }
        }
        let take = l.eq(&one);
        let (np, na) = self.scalar_mul_step(point_acc, bit_acc, g, l, 0, take)?;
        proof {
            reveal(pow);
            assert(pow(2, 0) == 1);
            lemma_reduced(1, m);
            lemma_reduced(l.v(), m);
            crate::modular::lemma_add_cong(hv, l.v(), m);
            crate::modular::lemma_mod_idem(hv, m);
        }
        point_acc = np;
        bit_acc = na;
        let row = self.gate_row()?;
        let o_cell = zero_cell();
        let w = w_row(point_acc.x, point_acc.y, bit_acc);
        let q = q_row(o_cell, o_cell, o_cell, o_cell, o_cell);
        assert(arith_holds(w, q, 0, m)) by {
            assert(sel(q[0]) == 0 && sel(q[1]) == 0 && sel(q[2]) == 0 && sel(q[3]) == 0 && sel(q[4]) == 0);
        }
        self.write_row(row, w, q);
        let outs = [point_acc.x, point_acc.y];
        self.set_out(o[0], outs)?;
        self.set_out(o[1], outs)?;
        Ok((row, bit_acc))
    }
}


/// The field a gate computes in (for a message pass, the field it reads).
pub open spec fn gate_fid(g: GateType) -> PastaFieldId {
    match g {
        GateType::Witness(_, o) => o[0].fid,
        GateType::PublicInput(_, o) => o[0].fid,
        GateType::Constant(_, o, _) => o[0].fid,
        GateType::Output(a, _, _) => a[0].fid,
        GateType::ScalarMul(a, _) => a[0].fid,
        GateType::FpMessagePass(a, _) => a[0].fid,
        GateType::Invert(a, _) => a[0].fid,
        GateType::Negate(a, _) => a[0].fid,
        GateType::AssertEq(a, _) => a[0].fid,
        GateType::Add(a, _) => a[0].fid,
        GateType::Multiply(a, _) => a[0].fid,
        GateType::PoseidonEnd(a, _) => a[0].fid,
        GateType::Poseidon(a, _, _) => a[0].fid,
        GateType::AffineAdd(a, _) => a[0].fid,
    }
}

fn gate_field(g: &GateType) -> (f: PastaFieldId)
    ensures
        f == gate_fid(*g),
{
    match g {
        GateType::Witness(_, o) => o[0].fid,
        GateType::PublicInput(_, o) => o[0].fid,
        GateType::Constant(_, o, _) => o[0].fid,
        GateType::Output(a, _, _) => a[0].fid,
        GateType::ScalarMul(a, _) => a[0].fid,
        GateType::FpMessagePass(a, _) => a[0].fid,
        GateType::Invert(a, _) => a[0].fid,
        GateType::Negate(a, _) => a[0].fid,
        GateType::AssertEq(a, _) => a[0].fid,
        GateType::Add(a, _) => a[0].fid,
        GateType::Multiply(a, _) => a[0].fid,
        GateType::PoseidonEnd(a, _) => a[0].fid,
        GateType::Poseidon(a, _, _) => a[0].fid,
        GateType::AffineAdd(a, _) => a[0].fid,
    }
}

/// The value assigned to a witness or public-input node matches its gate.
pub open spec fn assigned_ok(v: Option<PastaFE>, g: GateType, witness: bool) -> bool {
    v matches Some(x) ==> if witness {
        g matches GateType::Witness(_, o) && x.in_field(o[0].fid)
    } else {
        g matches GateType::PublicInput(_, o) && x.in_field(o[0].fid)
    }
}

/// The wire an output gate reads.
pub open spec fn output_wire(g: GateType) -> Wire {
    match g {
        GateType::Output(a, _, _) => a[0],
        _ => arbitrary(),
    }
}

/// The output slot an output gate writes.
pub open spec fn output_slot(g: GateType) -> int {
    match g {
        GateType::Output(_, _, k) => k as int,
        _ => 0,
    }
}

/// `new` is `old` with the ids of the wires `outs` added.
#[verifier::opaque]
pub open spec fn grew_by(old: Set<int>, new: Set<int>, outs: Seq<Wire>) -> bool {
    &&& old.subset_of(new)
    &&& forall|k: int| 0 <= k < outs.len() ==> new.contains((#[trigger] outs[k]).id as int)
    &&& forall|id: int| #[trigger] new.contains(id) ==> old.contains(id) || exists|k: int| 0 <= k < outs.len() && outs[k].id == id
}

/// Adding the ids of the wires of `outs`, one after the other, grows the
/// set by `outs`.
pub proof fn lemma_grew_by(old: Set<int>, new: Set<int>, outs: Seq<Wire>)
    requires
        outs.len() <= 3,
        outs.len() == 0 ==> new == old,
        outs.len() == 1 ==> new == old.insert(outs[0].id as int),
        outs.len() == 2 ==> new == old.insert(outs[0].id as int).insert(outs[1].id as int),
        outs.len() == 3 ==> new == old.insert(outs[0].id as int).insert(outs[1].id as int).insert(outs[2].id as int),
    ensures
        grew_by(old, new, outs),
{
    reveal(grew_by);
    assert forall|id: int| #[trigger] new.contains(id) implies old.contains(id) || exists|k: int| 0 <= k < outs.len() && outs[k].id == id by {
        if !old.contains(id) {
            assert(outs.len() > 0);
            if id == outs[0].id {
                assert(outs[0].id == id);
            } else if id == outs[1].id {
                assert(outs[1].id == id);
            } else {
                assert(outs[2].id == id);
            }
        }
    }
}

/// The gates that take rows among the rows of gates: a scalar
/// multiplication takes 256, the others one.
pub open spec fn row_gate(g: GateType) -> bool {
    ||| g is ScalarMul
    ||| g is Constant
    ||| g is Add
    ||| g is Multiply
    ||| g is Negate
    ||| g is Invert
    ||| g is AssertEq
    ||| g is Poseidon
    ||| g is PoseidonEnd
    ||| g is AffineAdd
}

/// The number of rows of gates that gate `g` takes.
pub open spec fn gate_rows(g: GateType) -> int {
    if g is ScalarMul {
        256
    } else if row_gate(g) {
        1
    } else {
        0
    }
}

/// The indices of the gates of field `f` that take rows among the rows of gates.
pub open spec fn row_gate_nodes(nodes: Seq<GateType>, f: PastaFieldId) -> Set<int> {
    Set::new(|i: int| 0 <= i < nodes.len() && row_gate(nodes[i]) && gate_fid(nodes[i]) == f)
}

/// The indices of the scalar multiplications of field `f`.
pub open spec fn scalar_mul_nodes(nodes: Seq<GateType>, f: PastaFieldId) -> Set<int> {
    Set::new(|i: int| 0 <= i < nodes.len() && nodes[i] is ScalarMul && gate_fid(nodes[i]) == f)
}

/// Output `k` of a scalar multiplication of the point `gp` by `2h + l`
/// (`l` taken as a bit when it is one) modulo `m`: the last double-and-add
/// step from the accumulated multiple of `h`.
#[verifier::opaque]
pub open spec fn scalar_mul_value(gp: Option<(int, int)>, h: int, l: int, m: int, k: int) -> int {
    let c = dbl_add_step(sm_acc(gp, h, 0, m), gp, l == 1, m);
    if k == 0 {
        c.0
    } else {
        c.1
    }
}

/// What a scalar multiplication of `gp` by the high part `h` needs: `h`
/// below `2^254`, `gp` on the curve, and no accumulated point that cannot
/// be doubled.
#[verifier::opaque]
pub open spec fn scalar_mul_fits(gp: Option<(int, int)>, h: int, m: int) -> bool {
    &&& h < pow(2, 254)
    &&& valid_point(gp, m)
    &&& forall|j: int| 0 <= j <= 254 ==> #[trigger] doubling_ok(sm_acc(gp, h, j, m), m)
}

/// The value a gate of a single field gives its output `k`, from the values
/// `vals` of the wires of its field, the value assigned to it and the MDS
/// matrix `mds` of its field.
pub open spec fn gate_value(
    g: GateType,
    vals: Seq<PastaFE>,
    witness: Option<PastaFE>,
    public_input: Option<PastaFE>,
    mds: [[PastaFE; 3]; 3],
    k: int,
) -> int {
    let m = modulus(gate_fid(g));
    match g {
        GateType::Witness(_, _) => match witness {
            Some(x) => x.v(),
            None => 0,
        },
        GateType::PublicInput(_, _) => match public_input {
            Some(x) => x.v(),
            None => 0,
        },
        GateType::Constant(_, _, c) => c.v(),
        GateType::Add(a, _) => (vals[a[0].id as int].v() + vals[a[1].id as int].v()) % m,
        GateType::Multiply(a, _) => (vals[a[0].id as int].v() * vals[a[1].id as int].v()) % m,
        GateType::Negate(a, _) => (0 - vals[a[0].id as int].v()) % m,
        GateType::Invert(a, _) => finv(vals[a[0].id as int].v(), m),
        GateType::Poseidon(a, _, r) => poseidon_out(
            mds,
            r,
            seq![vals[a[0].id as int].v(), vals[a[1].id as int].v(), vals[a[2].id as int].v()],
            m,
        )[k],
        GateType::PoseidonEnd(a, _) => vals[a[k].id as int].v(),
        GateType::ScalarMul(a, _) => scalar_mul_value(
            as_point((vals[a[2].id as int].v(), vals[a[3].id as int].v())),
            vals[a[0].id as int].v(),
            vals[a[1].id as int].v(),
            m,
            k,
        ),
        GateType::AffineAdd(a, _) => {
            let c = coords(
                curve_add(
                    as_point((vals[a[0].id as int].v(), vals[a[1].id as int].v())),
                    as_point((vals[a[2].id as int].v(), vals[a[3].id as int].v())),
                    m,
                ),
            );
            if k == 0 {
                c.0
            } else {
                c.1
            }
        },
        _ => 0,
    }
}

/// The field tag a gate gives its output `k`: that of the field, but
/// for the end of a Poseidon chain, which passes on the tag of its input.
pub open spec fn out_fid(g: GateType, vals: Seq<PastaFE>, k: int, f: PastaFieldId) -> Option<PastaFieldId> {
    if g is PoseidonEnd {
        vals[edged_inputs(g)[k].id as int].fid
    } else {
        Some(f)
    }
}

/// The value of output `k` of node `i` of a circuit, with
/// the witnesses `wit` and public inputs `pis` assigned by node and the MDS
/// matrices `mds` of the two fields: an input its assigned value, a
/// constant its value, an arithmetic gate the sum, product, negation or
/// inverse (zero for zero) of the values of its inputs modulo its field's
/// modulus, a Poseidon gate its five rounds, the end of a Poseidon chain its
/// inputs, an affine addition the coordinates of the sum of its points, a
/// scalar multiplication the coordinates of `[2h + l] G` by double-and-add
/// (`h` the high part, `l` the low bit), and a message pass the value of its
/// input halved and its lowest bit.
#[verifier::opaque]
pub open spec fn node_value(
    nodes: Seq<GateType>,
    wit: Seq<Option<PastaFE>>,
    pis: Seq<Option<PastaFE>>,
    mds: [[[PastaFE; 3]; 3]; 2],
    i: nat,
    k: int,
) -> int
    decreases i,
{
    if i >= nodes.len() {
        0
    } else {
        let g = nodes[i as int];
        let e = edged_inputs(g);
        let x0 = if e.len() > 0 && e[0].node_idx < i {
            node_value(nodes, wit, pis, mds, e[0].node_idx as nat, e[0].output_id as int)
        } else {
            0
        };
        let x1 = if e.len() > 1 && e[1].node_idx < i {
            node_value(nodes, wit, pis, mds, e[1].node_idx as nat, e[1].output_id as int)
        } else {
            0
        };
        let x2 = if e.len() > 2 && e[2].node_idx < i {
            node_value(nodes, wit, pis, mds, e[2].node_idx as nat, e[2].output_id as int)
        } else {
            0
        };
        let x3 = if e.len() > 3 && e[3].node_idx < i {
            node_value(nodes, wit, pis, mds, e[3].node_idx as nat, e[3].output_id as int)
        } else {
            0
        };
        let m = modulus(gate_fid(g));
        match g {
            GateType::Witness(_, _) => match wit[i as int] {
                Some(v) => v.v(),
                None => 0,
            },
            GateType::PublicInput(_, _) => match pis[i as int] {
                Some(v) => v.v(),
                None => 0,
            },
            GateType::Constant(_, _, c) => c.v(),
            GateType::Add(_, _) => (x0 + x1) % m,
            GateType::Multiply(_, _) => (x0 * x1) % m,
            GateType::Negate(_, _) => (0 - x0) % m,
            GateType::Invert(_, _) => finv(x0, m),
            GateType::Poseidon(_, _, r) => poseidon_out(mds[gate_fid(g).spec_idx()], r, seq![x0, x1, x2], m)[k],
            GateType::PoseidonEnd(_, _) => if k == 0 {
                x0
            } else if k == 1 {
                x1
            } else {
                x2
            },
            GateType::AffineAdd(_, _) => {
                let c = coords(curve_add(as_point((x0, x1)), as_point((x2, x3)), m));
                if k == 0 {
                    c.0
                } else {
                    c.1
                }
            },
            GateType::ScalarMul(_, _) => scalar_mul_value(as_point((x2, x3)), x0, x1, m, k),
            GateType::FpMessagePass(_, _) => if k == 0 {
                x0 / 2
            } else {
                x0 % 2
            },
            _ => 0,
        }
    }
}

/// The value carried by wire `w`: that of the output of its node that it is.
pub open spec fn wire_value(
    nodes: Seq<GateType>,
    wit: Seq<Option<PastaFE>>,
    pis: Seq<Option<PastaFE>>,
    mds: [[[PastaFE; 3]; 3]; 2],
    w: Wire,
) -> int {
    node_value(nodes, wit, pis, mds, w.node_idx as nat, w.output_id as int)
}

/// Evaluating gate `g` on the state `st` succeeds: a witness or public
/// input has its value, there are rows left for its rows, the values it
/// reads can be computed with (a field to work in, a nonzero value to
/// invert, the zero and one wires holding zero and one, points on the
/// curve), and an output names an output slot.
spec fn gate_succeeds(st: FieldState, g: GateType, witness: Option<PastaFE>, public_input: Option<PastaFE>) -> bool {
    let v = st.vals@;
    match g {
        GateType::Witness(_, _) => witness is Some,
        GateType::PublicInput(_, _) => public_input is Some && st.public_row_count < st.pi_offset
            && st.public_row_count < st.tr.rows,
        GateType::Constant(_, _, _) => st.room(1),
        GateType::Output(_, _, n) => n < st.tr.out_wires@.len(),
        GateType::ScalarMul(a, _) => scalar_mul_ok(st, a),
        GateType::FpMessagePass(_, _) => false,
        GateType::Invert(a, _) => st.room(1) && v[a[0].id as int].fid is Some && v[a[0].id as int].v() != 0
            && v[a[1].id as int].v() == 1,
        GateType::Negate(a, _) => st.room(1) && v[a[1].id as int].v() == 0 && v[a[0].id as int].fid is Some,
        GateType::AssertEq(_, _) => st.room(1),
        GateType::Add(a, _) => st.room(1) && (v[a[0].id as int].fid is Some || v[a[1].id as int].fid is Some),
        GateType::Multiply(a, _) => st.room(1) && (v[a[0].id as int].fid is Some || v[a[1].id as int].fid is Some),
        GateType::PoseidonEnd(_, _) => st.room(1),
        GateType::Poseidon(a, _, _) => st.room(1) && v[a[0].id as int].fid is Some && v[a[1].id as int].fid is Some
            && v[a[2].id as int].fid is Some,
        GateType::AffineAdd(a, _) => {
            let p = PastaAffine { x: v[a[0].id as int], y: v[a[1].id as int], fid: Some(st.fid) };
            let q = PastaAffine { x: v[a[2].id as int], y: v[a[3].id as int], fid: Some(st.fid) };
            &&& st.room(1)
            &&& p.x.fid is Some || p.y.fid is Some || q.x.fid is Some || q.y.fid is Some
            &&& valid_point(p.point(), modulus(st.fid)) && valid_point(q.point(), modulus(st.fid))
            &&& add_params_ok(p, q)
        },
    }
}

/// Evaluates a gate that computes in a single field and writes its rows.
#[verifier::spinoff_prover]
#[verifier::rlimit(100)]
fn process_gate(
    st: &mut FieldState,
    g: GateType,
    node: usize,
    witness: Option<PastaFE>,
    public_input: Option<PastaFE>,
    Ghost(wc): Ghost<[usize; 2]>,
    mds: &[[PastaFE; 3]; 3],
) -> (r: Result<(), TraceError>)
    requires
        old(st).inv(),
        !(g is FpMessagePass),
        old(st).fid == gate_fid(g),
        gate_ok(g, node as int, wc),
        old(st).vals@.len() == wc[old(st).fid.spec_idx()],
        assigned_ok(witness, g, true),
        assigned_ok(public_input, g, false),
        mat_in_field(*mds, old(st).fid),
        forall|k: int| 0 <= k < edged_inputs(g).len() ==> old(st).computed@.contains((#[trigger] edged_inputs(g)[k]).id as int),
        forall|k: int| 0 <= k < outputs(g).len() ==> !old(st).computed@.contains((#[trigger] outputs(g)[k]).id as int),
        forall|k: int| 0 <= k < outputs(g).len() ==> (#[trigger] outputs(g)[k]).output_id == k,
        forall|k: int, l: int| 0 <= k < l < outputs(g).len() ==> outputs(g)[k].id != outputs(g)[l].id,
    ensures
        r is Ok && !(g is PublicInput) ==> final(st).tr.public_inputs == old(st).tr.public_inputs,
        r is Ok && g is PublicInput ==> {
            &&& final(st).tr.public_inputs@ == old(st).tr.public_inputs@.push(final(st).tr.public_inputs@.last())
            &&& public_input matches Some(x) && final(st).tr.public_inputs@.last().v() == (0 - x.v()) % modulus(old(st).fid)
        },
        r is Ok ==> final(st).row_count == old(st).row_count + gate_rows(g),
        r is Ok ==> forall|k: int|
            0 <= k < outputs(g).len() ==> {
                &&& (#[trigger] final(st).vals@[outputs(g)[k].id as int]).v() == gate_value(
                    g,
                    old(st).vals@,
                    witness,
                    public_input,
                    *mds,
                    k,
                )
                &&& final(st).vals@[outputs(g)[k].id as int].fid == out_fid(g, old(st).vals@, k, old(st).fid)
            },
        r is Ok && outputs(g).len() == 0 ==> final(st).vals@ == old(st).vals@,
        final(st).inv(),
        final(st).same_shape(*old(st)),
        final(st).mp_row_count == old(st).mp_row_count,
        r is Ok ==> grew_by(old(st).computed@, final(st).computed@, outputs(g)),
        r is Ok ==> final(st).public_row_count == old(st).public_row_count + if g is PublicInput {
            1int
        } else {
            0int
        },
        !(g is Output) ==> final(st).keeps(*old(st)),
        g is Output ==> final(st).computed == old(st).computed && final(st).vals == old(st).vals,
        r is Ok <==> gate_succeeds(*old(st), g, witness, public_input),
        r is Ok && g is Output ==> output_slot(g) < old(st).tr.out_wires@.len() && final(st).tr.out_wires@
            == old(st).tr.out_wires@.update(output_slot(g), old(st).vals@[output_wire(g).id as int]),
{
    match g {
        GateType::Witness(_, o) => match witness {
            Some(v) => {
                proof { assert(outputs(g)[0] == o[0]); }
                st.gate_witness(o[0], v);
                proof { lemma_grew_by(old(st).computed@, st.computed@, outputs(g)); }
                Ok(())
            },
            None => Err(TraceError::Unassigned),
        },
        GateType::PublicInput(_, o) => match public_input {
            Some(v) => {
                proof { assert(outputs(g)[0] == o[0]); }
                st.gate_public_input(o[0], v)?;
                proof { lemma_grew_by(old(st).computed@, st.computed@, outputs(g)); }
                Ok(())
            },
            None => Err(TraceError::Unassigned),
        },
        GateType::Constant(_, o, c) => {
            proof { assert(outputs(g)[0] == o[0]); }
            st.gate_constant(o[0], c)?;
            proof { lemma_grew_by(old(st).computed@, st.computed@, outputs(g)); }
            Ok(())
        },
        GateType::Output(a, _, n) => {
            let r = st.gate_output(a[0], n);
            proof { lemma_grew_by(old(st).computed@, st.computed@, outputs(g)); }
            r
        },
        GateType::ScalarMul(..) => process_custom_gate(st, g, node, witness, public_input, Ghost(wc), mds),
        GateType::FpMessagePass(_, _) => Err(TraceError::NoFieldId),
        GateType::Invert(a, o) => {
            proof { assert(edged_inputs(g)[0] == a[0] && edged_inputs(g)[1] == a[1] && outputs(g)[0] == o[0]); }
            st.gate_invert(a[0], a[1], o[0])?;
            proof { lemma_grew_by(old(st).computed@, st.computed@, outputs(g)); }
            Ok(())
        },
        GateType::Negate(a, o) => {
            proof { assert(edged_inputs(g)[0] == a[0] && edged_inputs(g)[1] == a[1] && outputs(g)[0] == o[0]); }
            st.gate_negate(a[0], a[1], o[0])?;
            proof { lemma_grew_by(old(st).computed@, st.computed@, outputs(g)); }
            Ok(())
        },
        GateType::AssertEq(a, _) => {
            proof {
                assert(edged_inputs(g)[0] == a[0] && edged_inputs(g)[1] == a[1]);
                assert(wire_ok(a[0], wc, node as int) && wire_ok(a[1], wc, node as int));
            }
            st.gate_assert_eq(a[0], a[1])?;
            proof { lemma_grew_by(old(st).computed@, st.computed@, outputs(g)); }
            Ok(())
        },
        GateType::Add(a, o) => {
            proof { assert(edged_inputs(g)[0] == a[0] && edged_inputs(g)[1] == a[1] && outputs(g)[0] == o[0]); }
            st.gate_add(a[0], a[1], o[0])?;
            proof { lemma_grew_by(old(st).computed@, st.computed@, outputs(g)); }
            Ok(())
        },
        GateType::Multiply(a, o) => {
            proof { assert(edged_inputs(g)[0] == a[0] && edged_inputs(g)[1] == a[1] && outputs(g)[0] == o[0]); }
            st.gate_mul(a[0], a[1], o[0])?;
            proof { lemma_grew_by(old(st).computed@, st.computed@, outputs(g)); }
            Ok(())
        },
        GateType::PoseidonEnd(..) => process_custom_gate(st, g, node, witness, public_input, Ghost(wc), mds),
        GateType::Poseidon(..) => process_custom_gate(st, g, node, witness, public_input, Ghost(wc), mds),
        GateType::AffineAdd(..) => process_custom_gate(st, g, node, witness, public_input, Ghost(wc), mds),
    }
}

/// Evaluates a Poseidon, affine-addition or scalar-multiplication gate.
#[verifier::spinoff_prover]
#[verifier::rlimit(100)]
fn process_custom_gate(
    st: &mut FieldState,
    g: GateType,
    node: usize,
    witness: Option<PastaFE>,
    public_input: Option<PastaFE>,
    Ghost(wc): Ghost<[usize; 2]>,
    mds: &[[PastaFE; 3]; 3],
) -> (r: Result<(), TraceError>)
    requires
        old(st).inv(),
        !(g is FpMessagePass),
        old(st).fid == gate_fid(g),
        gate_ok(g, node as int, wc),
        old(st).vals@.len() == wc[old(st).fid.spec_idx()],
        g is ScalarMul || g is PoseidonEnd || g is Poseidon || g is AffineAdd,
        mat_in_field(*mds, old(st).fid),
        forall|k: int| 0 <= k < edged_inputs(g).len() ==> old(st).computed@.contains((#[trigger] edged_inputs(g)[k]).id as int),
        forall|k: int| 0 <= k < outputs(g).len() ==> !old(st).computed@.contains((#[trigger] outputs(g)[k]).id as int),
        forall|k: int| 0 <= k < outputs(g).len() ==> (#[trigger] outputs(g)[k]).output_id == k,
        forall|k: int, l: int| 0 <= k < l < outputs(g).len() ==> outputs(g)[k].id != outputs(g)[l].id,
    ensures
        final(st).tr.public_inputs == old(st).tr.public_inputs,
        r is Ok ==> final(st).row_count == old(st).row_count + gate_rows(g),
        r is Ok ==> forall|k: int|
            0 <= k < outputs(g).len() ==> {
                &&& (#[trigger] final(st).vals@[outputs(g)[k].id as int]).v() == gate_value(g, old(st).vals@, witness, public_input, *mds, k)
                &&& final(st).vals@[outputs(g)[k].id as int].fid == out_fid(g, old(st).vals@, k, old(st).fid)
            },
        final(st).inv(),
        final(st).same_shape(*old(st)),
        final(st).mp_row_count == old(st).mp_row_count,
        r is Ok ==> grew_by(old(st).computed@, final(st).computed@, outputs(g)),
        r is Ok ==> final(st).public_row_count == old(st).public_row_count + if g is PublicInput {
            1int
        } else {
            0int
        },
        final(st).keeps(*old(st)),
        r is Ok <==> gate_succeeds(*old(st), g, witness, public_input),
{
    match g {
        GateType::ScalarMul(a, o) => {
            proof {
                assert(outputs(g)[0] == o[0] && outputs(g)[1] == o[1]);
                assert(o[0].id != o[1].id);
                assert(a[0].fid == a[2].fid && a[1].fid == a[2].fid && a[3].fid == a[2].fid);
                assert(wire_ok(a[0], wc, node as int) && wire_ok(a[1], wc, node as int));
                assert(wire_ok(a[2], wc, node as int) && wire_ok(a[3], wc, node as int));
                assert(crate::circuit::out_ok(o[0], node as int, a[2].fid, wc));
                assert(crate::circuit::out_ok(o[1], node as int, a[2].fid, wc));
            }
            st.gate_scalar_mul(a, o)?;
            proof {
                lemma_grew_by(old(st).computed@, st.computed@, outputs(g));
                reveal(scalar_mul_value);
            }
            Ok(())
        },
        GateType::PoseidonEnd(a, o) => {
            proof {
                assert(edged_inputs(g)[0] == a[0] && edged_inputs(g)[1] == a[1] && edged_inputs(g)[2] == a[2]);
                assert(outputs(g)[0] == o[0] && outputs(g)[1] == o[1] && outputs(g)[2] == o[2]);
                assert(o[0].id != o[1].id && o[0].id != o[2].id && o[1].id != o[2].id);
                assert(wire_ok(a[0], wc, node as int) && wire_ok(a[1], wc, node as int) && wire_ok(a[2], wc, node as int));
                assert(a[1].fid == a[0].fid && a[2].fid == a[0].fid);
                assert(crate::circuit::out_ok(o[0], node as int, a[0].fid, wc));
                assert(crate::circuit::out_ok(o[1], node as int, a[0].fid, wc));
                assert(crate::circuit::out_ok(o[2], node as int, a[0].fid, wc));
            }
            st.gate_poseidon_end(a, o)?;
            proof { lemma_grew_by(old(st).computed@, st.computed@, outputs(g)); }
            Ok(())
        },
        GateType::Poseidon(a, o, rc) => {
            proof {
                assert(edged_inputs(g)[0] == a[0] && edged_inputs(g)[1] == a[1] && edged_inputs(g)[2] == a[2]);
                assert(outputs(g)[0] == o[0] && outputs(g)[1] == o[1] && outputs(g)[2] == o[2]);
                assert(o[0].id != o[1].id && o[0].id != o[2].id && o[1].id != o[2].id);
                assert(wire_ok(a[0], wc, node as int) && wire_ok(a[1], wc, node as int) && wire_ok(a[2], wc, node as int));
                assert(a[1].fid == a[0].fid && a[2].fid == a[0].fid);
                assert(crate::circuit::out_ok(o[0], node as int, a[0].fid, wc));
                assert(crate::circuit::out_ok(o[1], node as int, a[0].fid, wc));
                assert(crate::circuit::out_ok(o[2], node as int, a[0].fid, wc));
            }
            st.gate_poseidon(a, o, rc, mds)?;
            proof { lemma_grew_by(old(st).computed@, st.computed@, outputs(g)); }
            Ok(())
        },
        GateType::AffineAdd(a, o) => {
            proof {
                assert(edged_inputs(g)[0] == a[0] && edged_inputs(g)[1] == a[1] && edged_inputs(g)[2] == a[2]);
                assert(edged_inputs(g)[3] == a[3]);
                assert(outputs(g)[0] == o[0] && outputs(g)[1] == o[1]);
                assert(o[0].id != o[1].id);
                assert(wire_ok(a[0], wc, node as int) && wire_ok(a[1], wc, node as int));
                assert(wire_ok(a[2], wc, node as int) && wire_ok(a[3], wc, node as int));
                assert(a[1].fid == a[0].fid && a[2].fid == a[0].fid && a[3].fid == a[0].fid);
                assert(crate::circuit::out_ok(o[0], node as int, a[0].fid, wc));
                assert(crate::circuit::out_ok(o[1], node as int, a[0].fid, wc));
            }
            st.gate_affine_add(a, o)?;
            proof { lemma_grew_by(old(st).computed@, st.computed@, outputs(g)); }
            Ok(())
        },
        _ => Err(TraceError::NoFieldId),
    }
}


/// How many entries below `n` hold a value, counting only the nodes whose
/// gate computes in field `f`.
pub open spec fn count_assigned(v: Seq<Option<PastaFE>>, nodes: Seq<GateType>, f: PastaFieldId, n: int) -> nat
    decreases n,
{
    if n <= 0 {
        0
    } else {
        count_assigned(v, nodes, f, n - 1) + if v[n - 1] is Some && gate_fid(nodes[n - 1]) == f {
            1nat
        } else {
            0nat
        }
    }
}

/// Giving a value to an empty entry `i` adds one to the count of its field
/// and leaves the count of the other field.
pub proof fn lemma_count_assign(v: Seq<Option<PastaFE>>, nodes: Seq<GateType>, i: int, x: PastaFE, f: PastaFieldId, n: int)
    requires
        0 <= i < v.len(),
        n <= v.len(),
        v[i] is None,
    ensures
        count_assigned(v.update(i, Some(x)), nodes, f, n) == count_assigned(v, nodes, f, n) + if i < n
            && gate_fid(nodes[i]) == f {
            1nat
        } else {
            0nat
        },
    decreases n,
{
    if n > 0 {
        lemma_count_assign(v, nodes, i, x, f, n - 1);
    }
}

/// The count of assigned entries below `n` is at most `n`.
pub proof fn lemma_count_bound(v: Seq<Option<PastaFE>>, nodes: Seq<GateType>, f: PastaFieldId, n: int)
    requires
        n >= 0,
    ensures
        count_assigned(v, nodes, f, n) <= n,
    decreases n,
{
    if n > 0 {
        lemma_count_bound(v, nodes, f, n - 1);
    }
}

/// How many wires of `s` are of field `f`.
pub open spec fn count_fid(s: Seq<Wire>, f: PastaFieldId) -> nat
    decreases s.len(),
{
    if s.len() == 0 {
        0
    } else {
        count_fid(s.drop_last(), f) + if s.last().fid == f {
            1nat
        } else {
            0nat
        }
    }
}

/// Appending a wire adds one to the count of its field.
pub proof fn lemma_count_fid_push(s: Seq<Wire>, w: Wire, f: PastaFieldId)
    ensures
        count_fid(s.push(w), f) == count_fid(s, f) + if w.fid == f {
            1nat
        } else {
            0nat
        },
{
    assert(s.push(w).drop_last() =~= s);
}

/// `w` names a witness node (or a public-input node) of `nodes` and is not
/// its output wire.
pub open spec fn stray_ok(w: Wire, nodes: Seq<GateType>, witness: bool) -> bool {
    &&& w.node_idx < nodes.len()
    &&& if witness {
        nodes[w.node_idx as int] matches GateType::Witness(_, o) && o[0] != w
    } else {
        nodes[w.node_idx as int] matches GateType::PublicInput(_, o) && o[0] != w
    }
}

/// Whether `v` holds `w`.
fn contains_wire(v: &Vec<Wire>, w: Wire) -> (r: bool)
    ensures
        r == v@.contains(w),
{
    let mut i: usize = 0;
    while i < v.len()
        invariant
            i <= v@.len(),
            forall|j: int| 0 <= j < i ==> v@[j] != w,
        decreases v@.len() - i,
    {
        if v[i] == w {
            return true;
        }
        i = i + 1;
    }
    false
}

/// A circuit together with the values given to its witness and
/// public-input wires, from which its trace is built.
pub struct TraceBuilder {
    pub spec: CircuitSpec,
    /// The value of each witness node, by node index.
    pub witnesses: Vec<Option<PastaFE>>,
    /// The value of each public-input node, by node index.
    pub public_inputs: Vec<Option<PastaFE>>,
    /// The other wires of witness nodes that were given a value: each is
    /// counted, and its value is never read.
    pub stray_witnesses: Vec<Wire>,
    /// The other wires of public-input nodes that were given a value.
    pub stray_public_inputs: Vec<Wire>,
    /// How many witnesses of each field have a value.
    pub witness_counts: [usize; 2],
    /// How many public inputs of each field have a value.
    pub public_input_counts: [usize; 2],
}

/// `p` is the number of rows of a trace for `n` gate rows: the least power
/// of two that is at least `n` and at least 4.
pub open spec fn padded_rows_spec(p: int, n: int) -> bool {
    &&& p >= 4
    &&& p >= n
    &&& exists|k: nat| p == pow(2, k)
    &&& (p == 4 || p / 2 < n)
}

/// The number of rows of the trace for `n` gate rows, `None` where that
/// power of two does not fit in a `usize`.
pub fn padded_rows(n: usize) -> (r: Option<usize>)
    ensures
        r matches Some(p) ==> padded_rows_spec(p as int, n as int),
        r is None ==> n > usize::MAX / 2,
{
    let mut p: usize = 4;
    let ghost mut k: nat = 2;
    proof {
        reveal_with_fuel(pow, 3);
    }
    while p < n
        invariant
            p >= 4,
            p == pow(2, k),
            p == 4 || p / 2 < n,
        decreases usize::MAX - p,
    {
        if p > usize::MAX / 2 {
            return None;
        }
        proof {
            crate::field::lemma_pow2_step(k);
        }
        p = p * 2;
        proof {
            k = k + 1;
        }
    }
    Some(p)
}

impl FieldState {
    fn new(fid: PastaFieldId, rows: usize, wc: usize, oc: usize, pi_offset: usize, mp_offset: usize)
        -> (r: Result<FieldState, TraceError>)
        ensures
            r matches Ok(st) ==> {
                &&& st.inv()
                &&& st.fid == fid
                &&& st.tr.rows == rows
                &&& st.vals@.len() == wc
                &&& st.tr.out_wires@.len() == oc
                &&& st.pi_offset == pi_offset
                &&& st.mp_offset == mp_offset
                &&& st.public_row_count == 0
                &&& st.mp_row_count == 0
                &&& st.row_count == 0
                &&& st.computed@ == Set::<int>::empty()
                &&& st.tr.public_inputs@.len() == 0
                &&& st.mp_inputs@.len() == 0
                &&& forall|i: int| 0 <= i < wc ==> (#[trigger] st.tr.copy_constraints@[i])@.len() == 0
                &&& forall|i: int| 0 <= i < wc ==> #[trigger] st.vals@[i] == PastaFE::zero_spec()
                &&& forall|i: int| 0 <= i < oc ==> #[trigger] st.tr.out_wires@[i] == PastaFE::zero_spec()
                &&& forall|c: int, r: int| 0 <= c < 16 && 0 <= r < rows ==> #[trigger] st.tr.ws.at(c, r) == PastaFE::zero_spec()
                &&& forall|c: int, r: int| 0 <= c < 15 && 0 <= r < rows ==> #[trigger] st.tr.rs.at(c, r) == PastaFE::zero_spec()
                &&& forall|c: int, r: int| 0 <= c < 9 && 0 <= r < rows ==> #[trigger] st.tr.qs.at(c, r) == PastaFE::zero_spec()
            },
            r is Ok <==> rows <= usize::MAX / 16,
    {
        if rows > usize::MAX / 16 {
            return Err(TraceError::RowOverflow);
        }
        let o = zero_cell();
        let ws = Table::new(16, rows, o);
        let rs = Table::new(15, rows, o);
        let qs = Table::new(9, rows, o);
        let mut vals: Vec<PastaFE> = Vec::new();
        let mut copy: Vec<Vec<SlotId>> = Vec::new();
        let mut i: usize = 0;
        while i < wc
            invariant
                i <= wc,
                vals@.len() == i,
                copy@.len() == i,
                forall|j: int| 0 <= j < i ==> #[trigger] vals@[j] == o,
                forall|j: int| 0 <= j < i ==> (#[trigger] copy@[j])@.len() == 0,
            decreases wc - i,
        {
            vals.push(o);
            copy.push(Vec::new());
            i = i + 1;
        }
        let mut out_wires: Vec<PastaFE> = Vec::new();
        let mut j: usize = 0;
        while j < oc
            invariant
                j <= oc,
                out_wires@.len() == j,
                forall|t: int| 0 <= t < j ==> #[trigger] out_wires@[t] == o,
            decreases oc - j,
        {
            out_wires.push(o);
            j = j + 1;
        }
        proof {
            crate::field::lemma_modulus_bounds(fid);
            reveal(copies_ok);
            reveal(rows_ok);
            reveal(cells_distinct);
            let m = modulus(fid);
            assert forall|r: int| 0 <= r < rows implies #[trigger] row_arith(
                ws,
                qs,
                r,
                pi_term(Seq::empty(), Seq::empty(), pi_offset as int, r),
                m,
            ) || failed_assertion(ws, qs, r) by {
                assert(ws.at(0, r) == o && ws.at(1, r) == o && ws.at(2, r) == o);
                assert(qs.at(0, r) == o && qs.at(1, r) == o && qs.at(2, r) == o);
                assert(qs.at(3, r) == o && qs.at(4, r) == o);
            }
        }
        Ok(FieldState {
            fid,
            tr: FieldTrace {
                ws,
                rs,
                qs,
                public_inputs: Vec::new(),
                copy_constraints: copy,
                out_wires,
                rows,
            },
            vals,
            mp_inputs: Vec::new(),
            row_count: 0,
            public_row_count: 0,
            mp_row_count: 0,
            pi_offset,
            mp_offset,
            computed: Ghost(Set::empty()),
        })
    }
}

impl TraceBuilder {
    /// The circuit is well formed, there is one entry per node, every value
    /// belongs to a node of the right kind and is an element of its field,
    /// and the counters count the values of each field.
    pub open spec fn wf(&self) -> bool {
        &&& self.spec.wf()
        &&& self.witnesses@.len() == self.spec.nodes().len()
        &&& self.public_inputs@.len() == self.spec.nodes().len()
        &&& forall|i: int| 0 <= i < self.witnesses@.len() ==> assigned_ok(#[trigger] self.witnesses@[i], self.spec.nodes()[i], true)
        &&& forall|i: int| 0 <= i < self.public_inputs@.len() ==> assigned_ok(#[trigger] self.public_inputs@[i], self.spec.nodes()[i], false)
        &&& forall|i: int| 0 <= i < self.stray_witnesses@.len() ==> stray_ok(#[trigger] self.stray_witnesses@[i], self.spec.nodes(), true)
        &&& forall|i: int| 0 <= i < self.stray_public_inputs@.len() ==> stray_ok(#[trigger] self.stray_public_inputs@[i], self.spec.nodes(), false)
        &&& self.stray_witnesses@.no_duplicates()
        &&& self.stray_public_inputs@.no_duplicates()
        &&& forall|k: int| 0 <= k < 2 ==> #[trigger] self.witness_counts[k] == count_assigned(
            self.witnesses@,
            self.spec.nodes(),
            field_at(k),
            self.witnesses@.len() as int,
        ) + count_fid(self.stray_witnesses@, field_at(k))
        &&& forall|k: int| 0 <= k < 2 ==> #[trigger] self.public_input_counts[k] == count_assigned(
            self.public_inputs@,
            self.spec.nodes(),
            field_at(k),
            self.public_inputs@.len() as int,
        ) + count_fid(self.stray_public_inputs@, field_at(k))
    }

    /// A builder for the circuit `spec` with no value assigned yet.
    pub fn new(spec: CircuitSpec) -> (b: Self)
        requires
            spec.wf(),
        ensures
            b.wf(),
            b.spec == spec,
            forall|i: int| 0 <= i < b.witnesses@.len() ==> #[trigger] b.witnesses@[i] is None,
            forall|i: int| 0 <= i < b.public_inputs@.len() ==> #[trigger] b.public_inputs@[i] is None,
            b.stray_witnesses@.len() == 0,
            b.stray_public_inputs@.len() == 0,
    {
        let n = crate::circuit::graph_node_count(&spec.graph);
        let mut witnesses: Vec<Option<PastaFE>> = Vec::new();
        let mut public_inputs: Vec<Option<PastaFE>> = Vec::new();
        let mut i: usize = 0;
        while i < n
            invariant
                i <= n,
                witnesses@.len() == i,
                public_inputs@.len() == i,
                forall|j: int| 0 <= j < i ==> #[trigger] witnesses@[j] is None,
                forall|j: int| 0 <= j < i ==> #[trigger] public_inputs@[j] is None,
            decreases n - i,
        {
            witnesses.push(None);
            public_inputs.push(None);
            i = i + 1;
        }
        let b = TraceBuilder {
            spec,
            witnesses,
            public_inputs,
            stray_witnesses: Vec::new(),
            stray_public_inputs: Vec::new(),
            witness_counts: [0, 0],
            public_input_counts: [0, 0],
        };
        proof {
            lemma_count_none(b.witnesses@, b.spec.nodes(), PastaFieldId::Fp, n as int);
            lemma_count_none(b.witnesses@, b.spec.nodes(), PastaFieldId::Fq, n as int);
            lemma_count_none(b.public_inputs@, b.spec.nodes(), PastaFieldId::Fp, n as int);
            lemma_count_none(b.public_inputs@, b.spec.nodes(), PastaFieldId::Fq, n as int);
            assert(field_at(0) == PastaFieldId::Fp && field_at(1) == PastaFieldId::Fq);
        }
        b
    }

    /// Gives the witness wire `wire` the value `w`. Refused when the wire
    /// names no node, when its node is not a witness gate, and when the wire has a
    /// value already. A wire of such a node other than its output wire is
    /// taken and counted, and its value is never read.
    pub fn witness(&mut self, wire: Wire, w: PastaFE) -> (r: Result<(), TraceError>)
        requires
            old(self).wf(),
            w.in_field(wire.fid),
        ensures
            final(self).wf(),
            final(self).spec == old(self).spec,
            final(self).public_inputs == old(self).public_inputs,
            final(self).stray_public_inputs == old(self).stray_public_inputs,
            final(self).public_input_counts == old(self).public_input_counts,
            r == Err::<(), TraceError>(TraceError::NoSuchWire) <==> wire.node_idx >= old(self).spec.nodes().len(),
            r is Ok <==> {
                &&& wire.node_idx < old(self).spec.nodes().len()
                &&& old(self).spec.nodes()[wire.node_idx as int] matches GateType::Witness(_, o) && if o[0] == wire {
                    old(self).witnesses@[wire.node_idx as int] is None
                } else {
                    !old(self).stray_witnesses@.contains(wire)
                }
                &&& old(self).witness_counts[wire.fid.spec_idx()] < usize::MAX
            },
            old(self).spec.nodes()[wire.node_idx as int] matches GateType::Witness(_, o) && o[0] == wire && r is Ok
                ==> final(self).witnesses@ == old(self).witnesses@.update(wire.node_idx as int, Some(w))
                && final(self).stray_witnesses == old(self).stray_witnesses,
            old(self).spec.nodes()[wire.node_idx as int] matches GateType::Witness(_, o) && o[0] != wire && r is Ok
                ==> final(self).witnesses == old(self).witnesses && final(self).stray_witnesses@ == old(self).stray_witnesses@.push(wire),
            r is Err ==> final(self).witnesses == old(self).witnesses && final(self).stray_witnesses == old(self).stray_witnesses
                && final(self).witness_counts == old(self).witness_counts,
    {
        let i = wire.node_idx;
        if i >= crate::circuit::graph_node_count(&self.spec.graph) {
            return Err(TraceError::NoSuchWire);
        }
        match graph_node_weight(&self.spec.graph, i) {
            None => Err(TraceError::NoSuchWire),
            Some(GateType::Witness(_, o)) => {
                if o[0] != wire {
                    if contains_wire(&self.stray_witnesses, wire) {
                        return Err(TraceError::AlreadyAssigned);
                    }
                    let k = wire.fid.idx();
                    if self.witness_counts[k] == usize::MAX {
                        return Err(TraceError::TooManyValues);
                    }
                    let ghost before = self.stray_witnesses@;
                    proof {
                        lemma_count_fid_push(before, wire, PastaFieldId::Fp);
                        lemma_count_fid_push(before, wire, PastaFieldId::Fq);
                        assert(field_at(0) == PastaFieldId::Fp && field_at(1) == PastaFieldId::Fq);
                    }
                    self.stray_witnesses.push(wire);
                    self.witness_counts[k] = self.witness_counts[k] + 1;
                    proof {
                        assert forall|j: int| 0 <= j < self.stray_witnesses@.len() implies stray_ok(#[trigger] self.stray_witnesses@[j], self.spec.nodes(), true) by {
                            if j < before.len() {
                                assert(self.stray_witnesses@[j] == before[j]);
                            }
                        }
                        assert(self.stray_witnesses@.no_duplicates()) by {
                            assert forall|a: int, b: int| 0 <= a < b < self.stray_witnesses@.len() implies self.stray_witnesses@[a] != self.stray_witnesses@[b] by {
                                if b == before.len() {
                                    assert(before.contains(before[a]));
                                }
                            }
                        }
                    }
                    return Ok(());
                }
                if self.witnesses[i].is_some() {
                    return Err(TraceError::AlreadyAssigned);
                }
                let ghost before = self.witnesses@;
                let k = wire.fid.idx();
                proof {
                    let nodes = self.spec.nodes();
                    assert(gate_fid(nodes[i as int]) == wire.fid);
                    lemma_count_assign(before, nodes, i as int, w, PastaFieldId::Fp, before.len() as int);
                    lemma_count_assign(before, nodes, i as int, w, PastaFieldId::Fq, before.len() as int);
                    lemma_count_bound(before.update(i as int, Some(w)), nodes, wire.fid, before.len() as int);
                    assert(field_at(k as int) == wire.fid);
                    assert(before.len() < u32::MAX);
                    assert(field_at(0) == PastaFieldId::Fp && field_at(1) == PastaFieldId::Fq);
                }
                if self.witness_counts[k] == usize::MAX {
                    return Err(TraceError::TooManyValues);
                }
                self.witnesses.set(i, Some(w));
                self.witness_counts[k] = self.witness_counts[k] + 1;
                proof {
                    let nodes = self.spec.nodes();
                    assert forall|j: int| 0 <= j < self.witnesses@.len() implies assigned_ok(#[trigger] self.witnesses@[j], nodes[j], true) by {
                        if j != i {
                            assert(self.witnesses@[j] == before[j]);
                        }
                    }
                }
                Ok(())
            },
            Some(_) => Err(TraceError::NotAWitnessWire),
        }
    }

    /// Gives the public-input wire `wire` the value `x`. Refused when the wire
    /// names no node, when its node is not a public-input gate, and when the wire has a
    /// value already. A wire of such a node other than its output wire is
    /// taken and counted, and its value is never read.
    pub fn public_input(&mut self, wire: Wire, x: PastaFE) -> (r: Result<(), TraceError>)
        requires
            old(self).wf(),
            x.in_field(wire.fid),
        ensures
            final(self).wf(),
            final(self).spec == old(self).spec,
            final(self).witnesses == old(self).witnesses,
            final(self).stray_witnesses == old(self).stray_witnesses,
            final(self).witness_counts == old(self).witness_counts,
            r == Err::<(), TraceError>(TraceError::NoSuchWire) <==> wire.node_idx >= old(self).spec.nodes().len(),
            r is Ok <==> {
                &&& wire.node_idx < old(self).spec.nodes().len()
                &&& old(self).spec.nodes()[wire.node_idx as int] matches GateType::PublicInput(_, o) && if o[0] == wire {
                    old(self).public_inputs@[wire.node_idx as int] is None
                } else {
                    !old(self).stray_public_inputs@.contains(wire)
                }
                &&& old(self).public_input_counts[wire.fid.spec_idx()] < usize::MAX
            },
            old(self).spec.nodes()[wire.node_idx as int] matches GateType::PublicInput(_, o) && o[0] == wire && r is Ok
                ==> final(self).public_inputs@ == old(self).public_inputs@.update(wire.node_idx as int, Some(x))
                && final(self).stray_public_inputs == old(self).stray_public_inputs,
            old(self).spec.nodes()[wire.node_idx as int] matches GateType::PublicInput(_, o) && o[0] != wire && r is Ok
                ==> final(self).public_inputs == old(self).public_inputs && final(self).stray_public_inputs@ == old(self).stray_public_inputs@.push(wire),
            r is Err ==> final(self).public_inputs == old(self).public_inputs && final(self).stray_public_inputs == old(self).stray_public_inputs
                && final(self).public_input_counts == old(self).public_input_counts,
    {
        let i = wire.node_idx;
        if i >= crate::circuit::graph_node_count(&self.spec.graph) {
            return Err(TraceError::NoSuchWire);
        }
        match graph_node_weight(&self.spec.graph, i) {
            None => Err(TraceError::NoSuchWire),
            Some(GateType::PublicInput(_, o)) => {
                if o[0] != wire {
                    if contains_wire(&self.stray_public_inputs, wire) {
                        return Err(TraceError::AlreadyAssigned);
                    }
                    let k = wire.fid.idx();
                    if self.public_input_counts[k] == usize::MAX {
                        return Err(TraceError::TooManyValues);
                    }
                    let ghost before = self.stray_public_inputs@;
                    proof {
                        lemma_count_fid_push(before, wire, PastaFieldId::Fp);
                        lemma_count_fid_push(before, wire, PastaFieldId::Fq);
                        assert(field_at(0) == PastaFieldId::Fp && field_at(1) == PastaFieldId::Fq);
                    }
                    self.stray_public_inputs.push(wire);
                    self.public_input_counts[k] = self.public_input_counts[k] + 1;
                    proof {
                        assert forall|j: int| 0 <= j < self.stray_public_inputs@.len() implies stray_ok(#[trigger] self.stray_public_inputs@[j], self.spec.nodes(), false) by {
                            if j < before.len() {
                                assert(self.stray_public_inputs@[j] == before[j]);
                            }
                        }
                        assert(self.stray_public_inputs@.no_duplicates()) by {
                            assert forall|a: int, b: int| 0 <= a < b < self.stray_public_inputs@.len() implies self.stray_public_inputs@[a] != self.stray_public_inputs@[b] by {
                                if b == before.len() {
                                    assert(before.contains(before[a]));
                                }
                            }
                        }
                    }
                    return Ok(());
                }
                if self.public_inputs[i].is_some() {
                    return Err(TraceError::AlreadyAssigned);
                }
                let ghost before = self.public_inputs@;
                let k = wire.fid.idx();
                proof {
                    let nodes = self.spec.nodes();
                    assert(gate_fid(nodes[i as int]) == wire.fid);
                    lemma_count_assign(before, nodes, i as int, x, PastaFieldId::Fp, before.len() as int);
                    lemma_count_assign(before, nodes, i as int, x, PastaFieldId::Fq, before.len() as int);
                    lemma_count_bound(before.update(i as int, Some(x)), nodes, wire.fid, before.len() as int);
                    assert(field_at(k as int) == wire.fid);
                    assert(before.len() < u32::MAX);
                    assert(field_at(0) == PastaFieldId::Fp && field_at(1) == PastaFieldId::Fq);
                }
                if self.public_input_counts[k] == usize::MAX {
                    return Err(TraceError::TooManyValues);
                }
                self.public_inputs.set(i, Some(x));
                self.public_input_counts[k] = self.public_input_counts[k] + 1;
                proof {
                    let nodes = self.spec.nodes();
                    assert forall|j: int| 0 <= j < self.public_inputs@.len() implies assigned_ok(#[trigger] self.public_inputs@[j], nodes[j], false) by {
                        if j != i {
                            assert(self.public_inputs@[j] == before[j]);
                        }
                    }
                }
                Ok(())
            },
            Some(_) => Err(TraceError::NotAPublicInputWire),
        }
    }
}

/// With no entry assigned, every count is zero.
pub proof fn lemma_count_none(v: Seq<Option<PastaFE>>, nodes: Seq<GateType>, f: PastaFieldId, n: int)
    requires
        n <= v.len(),
        forall|i: int| 0 <= i < v.len() ==> #[trigger] v[i] is None,
    ensures
        count_assigned(v, nodes, f, n) == 0,
    decreases n,
{
    if n > 0 {
        lemma_count_none(v, nodes, f, n - 1);
    }
}


/// Every output of field `f` of a node in `done` is in `comp`.
pub open spec fn outs_computed(nodes: Seq<GateType>, done: Set<int>, comp: Set<int>, f: PastaFieldId) -> bool {
    forall|d: int, k: int|
        #![trigger done.contains(d), outputs(nodes[d])[k]]
        done.contains(d) && 0 <= d < nodes.len() && 0 <= k < outputs(nodes[d]).len() && outputs(nodes[d])[k].fid == f
            ==> comp.contains(outputs(nodes[d])[k].id as int)
}

/// Every id in `comp` is that of an output of field `f` of a node in `done`.
pub open spec fn computed_from(nodes: Seq<GateType>, done: Set<int>, comp: Set<int>, f: PastaFieldId) -> bool {
    forall|id: int|
        #[trigger] comp.contains(id) ==> exists|d: int, k: int|
            #![trigger outputs(nodes[d])[k]]
            done.contains(d) && 0 <= d < nodes.len() && 0 <= k < outputs(nodes[d]).len() && outputs(nodes[d])[k].fid
                == f && outputs(nodes[d])[k].id == id
}

/// Index `a` occurs in the list `order`.
pub open spec fn order_has(order: Seq<usize>, a: int) -> bool {
    exists|i: int| 0 <= i < order.len() && order[i] as int == a
}

/// A list of `n` distinct indices below `n` names every index below `n`.
pub proof fn lemma_order_covers(order: Seq<usize>, n: int)
    requires
        order.len() == n,
        forall|i: int| 0 <= i < n ==> #[trigger] order[i] < n,
        forall|i: int, j: int| 0 <= i < j < n ==> order[i] != order[j],
    ensures
        forall|a: int| 0 <= a < n ==> #[trigger] order_has(order, a),
{
    let s = order.map_values(|x: usize| x as int);
    assert forall|i: int, j: int| 0 <= i < s.len() && 0 <= j < s.len() && i != j implies s[i] != s[j] by {
        if i < j {
            assert(order[i] != order[j]);
        } else {
            assert(order[j] != order[i]);
        }
    }
    assert(s.no_duplicates());
    s.unique_seq_to_set();
    let r = vstd::set_lib::set_int_range(0, n);
    vstd::set_lib::lemma_int_range(0, n);
    assert forall|a: int| s.to_set().contains(a) implies r.contains(a) by {
        let i = choose|i: int| 0 <= i < s.len() && s[i] == a;
        assert(order[i] < n);
    }
    vstd::set_lib::lemma_subset_equality(s.to_set(), r);
    assert forall|a: int| 0 <= a < n implies #[trigger] order_has(order, a) by {
        assert(r.contains(a));
        assert(s.to_set().contains(a));
        let i = choose|i: int| 0 <= i < s.len() && s[i] == a;
        assert(order[i] as int == a);
    }
}

/// The fields of the wires of a well-placed gate: every copied input is of
/// the field it computes in, and so is every output, except that a message
/// pass outputs `Fq` wires.
pub proof fn lemma_gate_fields(g: GateType, i: int, wc: [usize; 2])
    requires
        gate_ok(g, i, wc),
    ensures
        forall|k: int| 0 <= k < edged_inputs(g).len() ==> (#[trigger] edged_inputs(g)[k]).fid == gate_fid(g),
        !(g is FpMessagePass) ==> forall|k: int| 0 <= k < outputs(g).len() ==> (#[trigger] outputs(g)[k]).fid == gate_fid(g),
        g is FpMessagePass ==> forall|k: int| 0 <= k < outputs(g).len() ==> (#[trigger] outputs(g)[k]).fid == PastaFieldId::Fq,
{
    match g {
        GateType::ScalarMul(a, o) => {
            assert(a[0].fid == a[2].fid && a[1].fid == a[2].fid && a[3].fid == a[2].fid);
            assert(crate::circuit::out_ok(o[0], i, a[2].fid, wc) && crate::circuit::out_ok(o[1], i, a[2].fid, wc));
        },
        GateType::FpMessagePass(_, o) => {
            assert(crate::circuit::out_ok(o[0], i, PastaFieldId::Fq, wc) && crate::circuit::out_ok(o[1], i, PastaFieldId::Fq, wc));
        },
        GateType::AssertEq(a, _) => {},
        GateType::PoseidonEnd(a, o) => {
            assert(a[1].fid == a[0].fid && a[2].fid == a[0].fid);
            assert(crate::circuit::out_ok(o[0], i, a[0].fid, wc) && crate::circuit::out_ok(o[1], i, a[0].fid, wc));
            assert(crate::circuit::out_ok(o[2], i, a[0].fid, wc));
        },
        GateType::Poseidon(a, o, _) => {
            assert(a[1].fid == a[0].fid && a[2].fid == a[0].fid);
            assert(crate::circuit::out_ok(o[0], i, a[0].fid, wc) && crate::circuit::out_ok(o[1], i, a[0].fid, wc));
            assert(crate::circuit::out_ok(o[2], i, a[0].fid, wc));
        },
        GateType::AffineAdd(a, o) => {
            assert(a[1].fid == a[0].fid && a[2].fid == a[0].fid && a[3].fid == a[0].fid);
            assert(crate::circuit::out_ok(o[0], i, a[0].fid, wc) && crate::circuit::out_ok(o[1], i, a[0].fid, wc));
        },
        _ => {},
    }
}

/// Before node `order[t]` is evaluated, its copied inputs of field `f` are
/// computed and its outputs of field `f` are not, and its outputs carry
/// their indices and distinct ids.
pub proof fn lemma_gate_ready(spec: CircuitSpec, order: Seq<usize>, t: int, done: Set<int>, comp: Set<int>, f: PastaFieldId)
    requires
        spec.wf(),
        is_topo_order(order, spec.nodes().len() as int, spec.edges()),
        0 <= t < spec.nodes().len(),
        forall|a: int| 0 <= a < spec.nodes().len() ==> #[trigger] order_has(order, a),
        forall|k: int| 0 <= k < t ==> done.contains(#[trigger] order[k] as int),
        !done.contains(order[t] as int),
        outs_computed(spec.nodes(), done, comp, f),
        computed_from(spec.nodes(), done, comp, f),
    ensures
        forall|k: int|
            0 <= k < edged_inputs(spec.nodes()[order[t] as int]).len() && (#[trigger] edged_inputs(
                spec.nodes()[order[t] as int],
            )[k]).fid == f ==> comp.contains(edged_inputs(spec.nodes()[order[t] as int])[k].id as int),
        forall|k: int|
            0 <= k < outputs(spec.nodes()[order[t] as int]).len() && (#[trigger] outputs(
                spec.nodes()[order[t] as int],
            )[k]).fid == f ==> !comp.contains(outputs(spec.nodes()[order[t] as int])[k].id as int),
        forall|k: int| 0 <= k < outputs(spec.nodes()[order[t] as int]).len() ==> (#[trigger] outputs(
            spec.nodes()[order[t] as int],
        )[k]).output_id == k,
        forall|k: int, l: int|
            0 <= k < l < outputs(spec.nodes()[order[t] as int]).len() && outputs(spec.nodes()[order[t] as int])[k].fid
                == outputs(spec.nodes()[order[t] as int])[l].fid ==> outputs(spec.nodes()[order[t] as int])[k].id
                != outputs(spec.nodes()[order[t] as int])[l].id,
{
    let nodes = spec.nodes();
    let n = nodes.len() as int;
    let x = order[t] as int;
    let g = nodes[x];
    assert(order[t] < n);
    assert forall|k: int| 0 <= k < edged_inputs(g).len() && (#[trigger] edged_inputs(g)[k]).fid == f implies comp.contains(
        edged_inputs(g)[k].id as int,
    ) by {
        let w = edged_inputs(g)[k];
        assert(produced(nodes, w) && crate::circuit::has_edge(spec.edges(), w, x));
        let e = choose|e: int| 0 <= e < spec.edges().len() && #[trigger] spec.edges()[e] == (w.node_idx as int, x, w);
        let a = w.node_idx as int;
        assert(0 <= a < n);
        assert(order_has(order, a));
        let i = choose|i: int| 0 <= i < order.len() && order[i] as int == a;
        assert(order[i] as int == spec.edges()[e].0 && order[t] as int == spec.edges()[e].1);
        assert(i < t);
        assert(done.contains(order[i] as int));
        assert(outputs(nodes[a])[w.output_id as int] == w);
    }
    assert forall|k: int|
        0 <= k < outputs(g).len() && (#[trigger] outputs(g)[k]).fid == f implies !comp.contains(outputs(g)[k].id as int) by {
        let o = outputs(g)[k];
        if comp.contains(o.id as int) {
            let (d, l) = choose|d: int, l: int|
                #![trigger outputs(nodes[d])[l]]
                done.contains(d) && 0 <= d < nodes.len() && 0 <= l < outputs(nodes[d]).len() && outputs(nodes[d])[l].fid == f
                    && outputs(nodes[d])[l].id == o.id as int;
            assert(outputs(nodes[d])[l].id == outputs(nodes[x])[k].id);
            assert(d == x);
        }
    }
    assert forall|k: int| 0 <= k < outputs(g).len() implies (#[trigger] outputs(g)[k]).output_id == k by {}
    assert forall|k: int, l: int|
        0 <= k < l < outputs(g).len() && outputs(g)[k].fid == outputs(g)[l].fid implies outputs(g)[k].id != outputs(g)[l].id by {
        if outputs(g)[k].id == outputs(g)[l].id {
            assert(outputs(nodes[x])[k] == outputs(g)[k] && outputs(nodes[x])[l] == outputs(g)[l]);
        }
    }
}

/// Evaluating node `x` with outputs of field `f` grows the computed set of
/// `f` by them; a set of another field is unchanged.
pub proof fn lemma_computed_step(nodes: Seq<GateType>, done: Set<int>, x: int, comp0: Set<int>, comp1: Set<int>, f: PastaFieldId)
    requires
        0 <= x < nodes.len(),
        outs_computed(nodes, done, comp0, f),
        computed_from(nodes, done, comp0, f),
        comp0.subset_of(comp1),
        forall|k: int| 0 <= k < outputs(nodes[x]).len() && (#[trigger] outputs(nodes[x])[k]).fid == f ==> comp1.contains(
            outputs(nodes[x])[k].id as int,
        ),
        forall|id: int| #[trigger] comp1.contains(id) ==> comp0.contains(id) || exists|k: int|
            0 <= k < outputs(nodes[x]).len() && outputs(nodes[x])[k].fid == f && outputs(nodes[x])[k].id == id,
    ensures
        outs_computed(nodes, done.insert(x), comp1, f),
        computed_from(nodes, done.insert(x), comp1, f),
{
    assert forall|d: int, k: int|
        #![trigger done.insert(x).contains(d), outputs(nodes[d])[k]]
        done.insert(x).contains(d) && 0 <= d < nodes.len() && 0 <= k < outputs(nodes[d]).len() && outputs(nodes[d])[k].fid
            == f implies comp1.contains(outputs(nodes[d])[k].id as int) by {
        if d != x {
            assert(done.contains(d));
            assert(comp0.contains(outputs(nodes[d])[k].id as int));
        }
    }
    assert forall|id: int| #[trigger] comp1.contains(id) implies exists|d: int, k: int|
        #![trigger outputs(nodes[d])[k]]
        done.insert(x).contains(d) && 0 <= d < nodes.len() && 0 <= k < outputs(nodes[d]).len() && outputs(nodes[d])[k].fid
            == f && outputs(nodes[d])[k].id == id by {
        if comp0.contains(id) {
            let (d, k) = choose|d: int, k: int|
                #![trigger outputs(nodes[d])[k]]
                done.contains(d) && 0 <= d < nodes.len() && 0 <= k < outputs(nodes[d]).len() && outputs(nodes[d])[k].fid
                    == f && outputs(nodes[d])[k].id == id;
            assert(done.insert(x).contains(d));
        } else {
            let k = choose|k: int| 0 <= k < outputs(nodes[x]).len() && outputs(nodes[x])[k].fid == f && outputs(nodes[x])[k].id == id;
            assert(done.insert(x).contains(x));
            assert(outputs(nodes[x])[k].id == id);
        }
    }
}

/// Every output gate of field `f` among the nodes in `done` has written its
/// slot with the value of its wire, which is computed.
spec fn outputs_recorded(nodes: Seq<GateType>, done: Set<int>, st: FieldState, f: PastaFieldId) -> bool {
    forall|d: int|
        #[trigger] done.contains(d) && 0 <= d < nodes.len() && nodes[d] is Output && output_wire(nodes[d]).fid == f ==> {
            &&& 0 <= output_slot(nodes[d]) < st.tr.out_wires@.len()
            &&& st.tr.out_wires@[output_slot(nodes[d])] == st.vals@[output_wire(nodes[d]).id as int]
            &&& st.computed@.contains(output_wire(nodes[d]).id as int)
            &&& output_wire(nodes[d]).id < st.vals@.len()
        }
}

/// Evaluating node `x` keeps the recorded outputs of field `f`, and records
/// its own when it is an output gate of `f`.
proof fn lemma_outputs_step(nodes: Seq<GateType>, done: Set<int>, x: int, st0: FieldState, st1: FieldState, f: PastaFieldId)
    requires
        0 <= x < nodes.len(),
        !done.contains(x),
        outputs_recorded(nodes, done, st0, f),
        st1.vals@.len() == st0.vals@.len(),
        forall|i: int, j: int|
            0 <= i < nodes.len() && 0 <= j < nodes.len() && i != j ==> crate::circuit::output_slots_differ(
                #[trigger] nodes[i],
                #[trigger] nodes[j],
            ),
        (nodes[x] is Output && output_wire(nodes[x]).fid == f) ==> {
            &&& st1.vals == st0.vals
            &&& st1.computed == st0.computed
            &&& 0 <= output_slot(nodes[x]) < st0.tr.out_wires@.len()
            &&& st1.tr.out_wires@ == st0.tr.out_wires@.update(
                output_slot(nodes[x]),
                st0.vals@[output_wire(nodes[x]).id as int],
            )
            &&& st0.computed@.contains(output_wire(nodes[x]).id as int)
            &&& output_wire(nodes[x]).id < st0.vals@.len()
        },
        !(nodes[x] is Output && output_wire(nodes[x]).fid == f) ==> st1.keeps(st0),
    ensures
        outputs_recorded(nodes, done.insert(x), st1, f),
{
    assert forall|d: int|
        #[trigger] done.insert(x).contains(d) && 0 <= d < nodes.len() && nodes[d] is Output && output_wire(nodes[d]).fid
            == f implies {
        &&& 0 <= output_slot(nodes[d]) < st1.tr.out_wires@.len()
        &&& st1.tr.out_wires@[output_slot(nodes[d])] == st1.vals@[output_wire(nodes[d]).id as int]
        &&& st1.computed@.contains(output_wire(nodes[d]).id as int)
        &&& output_wire(nodes[d]).id < st1.vals@.len()
    } by {
        if d != x {
            assert(done.contains(d));
            let w = output_wire(nodes[d]);
            assert(st0.computed@.contains(w.id as int));
            if nodes[x] is Output && output_wire(nodes[x]).fid == f {
                assert(crate::circuit::output_slots_differ(nodes[d], nodes[x]));
                assert(output_slot(nodes[d]) != output_slot(nodes[x]));
            } else {
                assert(st1.vals@[w.id as int] == st0.vals@[w.id as int]);
            }
        }
    }
}

/// When every node has been evaluated, the recorded outputs agree with the
/// cells of their wires.
proof fn lemma_outputs_match(nodes: Seq<GateType>, done: Set<int>, st: FieldState, tr: FieldTrace, f: PastaFieldId)
    requires
        st.inv(),
        outputs_recorded(nodes, done, st, f),
        forall|i: int| 0 <= i < nodes.len() ==> #[trigger] done.contains(i),
        tr.ws == st.tr.ws,
        tr.copy_constraints == st.tr.copy_constraints,
        tr.out_wires == st.tr.out_wires,
    ensures
        outputs_match(tr, nodes, f),
{
    reveal(copies_ok);
    assert forall|i: int| 0 <= i < nodes.len() && #[trigger] nodes[i] is Output && output_wire(nodes[i]).fid == f implies {
        &&& 0 <= output_slot(nodes[i]) < tr.out_wires@.len()
        &&& 0 <= output_wire(nodes[i]).id < tr.copy_constraints@.len()
        &&& forall|j: int|
            0 <= j < tr.copy_constraints@[output_wire(nodes[i]).id as int]@.len() ==> slot_value(
                tr.ws,
                #[trigger] tr.copy_constraints@[output_wire(nodes[i]).id as int]@[j],
            ) == tr.out_wires@[output_slot(nodes[i])].v()
    } by {
        assert(done.contains(i));
        let w = output_wire(nodes[i]);
        assert forall|j: int| 0 <= j < tr.copy_constraints@[w.id as int]@.len() implies slot_value(
            tr.ws,
            #[trigger] tr.copy_constraints@[w.id as int]@[j],
        ) == tr.out_wires@[output_slot(nodes[i])].v() by {
            assert(slot_value(st.tr.ws, st.tr.copy_constraints@[w.id as int]@[j]) == st.vals@[w.id as int].v());
        }
    }
}

/// The output gates of field `f` write slots of the outputs, each with the
/// value held in every cell recorded for the wire it reads.
pub open spec fn outputs_match(tr: FieldTrace, nodes: Seq<GateType>, f: PastaFieldId) -> bool {
    forall|i: int|
        0 <= i < nodes.len() && #[trigger] nodes[i] is Output && output_wire(nodes[i]).fid == f ==> {
            &&& 0 <= output_slot(nodes[i]) < tr.out_wires@.len()
            &&& 0 <= output_wire(nodes[i]).id < tr.copy_constraints@.len()
            &&& forall|j: int|
                0 <= j < tr.copy_constraints@[output_wire(nodes[i]).id as int]@.len() ==> slot_value(
                    tr.ws,
                    #[trigger] tr.copy_constraints@[output_wire(nodes[i]).id as int]@[j],
                ) == tr.out_wires@[output_slot(nodes[i])].v()
        }
}

/// Adding a new element `x` to a finite set adds one to its size, and adds
/// one to the size of its part in `s` exactly when `x` is in `s`.
pub proof fn lemma_count_step(done: Set<int>, s: Set<int>, x: int)
    requires
        done.finite(),
        !done.contains(x),
    ensures
        done.insert(x).finite(),
        done.insert(x).len() == done.len() + 1,
        done.intersect(s).finite(),
        done.insert(x).intersect(s).len() == done.intersect(s).len() + if s.contains(x) {
            1int
        } else {
            0int
        },
{
    vstd::set_lib::lemma_len_subset(done.intersect(s), done);
    if s.contains(x) {
        assert(done.insert(x).intersect(s) =~= done.intersect(s).insert(x));
    } else {
        assert(done.insert(x).intersect(s) =~= done.intersect(s));
    }
}

/// A set of `n` indices below `n` holds all of them, so its part in a set
/// of indices below `n` is that whole set.
pub proof fn lemma_all_done(done: Set<int>, s: Set<int>, n: int)
    requires
        0 <= n,
        done.finite(),
        done.len() == n,
        forall|i: int| #[trigger] done.contains(i) ==> 0 <= i < n,
        forall|i: int| #[trigger] s.contains(i) ==> 0 <= i < n,
    ensures
        done.intersect(s) =~= s,
{
    vstd::set_lib::lemma_int_range(0, n);
    vstd::set_lib::lemma_subset_equality(done, vstd::set_lib::set_int_range(0, n));
    assert forall|i: int| s.contains(i) implies done.contains(i) by {
        assert(vstd::set_lib::set_int_range(0, n).contains(i));
    }
}

/// Every node in `done` with an output of field `f` has given it, in
/// `vals`, the value of the circuit evaluation, tagged with `f`.
spec fn evaluated(
    nodes: Seq<GateType>,
    wit: Seq<Option<PastaFE>>,
    pis: Seq<Option<PastaFE>>,
    mds: [[[PastaFE; 3]; 3]; 2],
    done: Set<int>,
    vals: Seq<PastaFE>,
    f: PastaFieldId,
) -> bool {
    forall|d: int, k: int|
        #![trigger done.contains(d), outputs(nodes[d])[k]]
        done.contains(d) && 0 <= d < nodes.len() && 0 <= k < outputs(nodes[d]).len() && outputs(nodes[d])[k].fid == f
            ==> {
            &&& 0 <= outputs(nodes[d])[k].id < vals.len()
            &&& vals[outputs(nodes[d])[k].id as int].v() == node_value(nodes, wit, pis, mds, d as nat, k)
            &&& vals[outputs(nodes[d])[k].id as int].fid == Some(f)
        }
}

/// Every witness and public-input gate has a value.
pub open spec fn inputs_assigned(nodes: Seq<GateType>, wit: Seq<Option<PastaFE>>, pis: Seq<Option<PastaFE>>) -> bool {
    forall|i: int|
        0 <= i < nodes.len() ==> {
            &&& (#[trigger] nodes[i] is Witness ==> wit[i] is Some)
            &&& (nodes[i] is PublicInput ==> pis[i] is Some)
        }
}

/// Every witness and public-input gate in `done` has a value.
spec fn inputs_seen(nodes: Seq<GateType>, wit: Seq<Option<PastaFE>>, pis: Seq<Option<PastaFE>>, done: Set<int>) -> bool {
    forall|i: int|
        #[trigger] done.contains(i) && 0 <= i < nodes.len() ==> {
            &&& (nodes[i] is Witness ==> wit[i] is Some)
            &&& (nodes[i] is PublicInput ==> pis[i] is Some)
        }
}

/// The checks a gate makes on the values of its inputs pass: an inverted
/// value is not zero, the one wire of an inversion carries one, the zero
/// wire of a negation carries zero, the points an affine addition adds lie
/// on the curve, and a scalar multiplication has a high part below
/// `2^254`, a point on the curve and no accumulated point with a zero
/// ordinate to double.
pub open spec fn gate_checks(nodes: Seq<GateType>, wit: Seq<Option<PastaFE>>, pis: Seq<Option<PastaFE>>, mds: [[[PastaFE; 3]; 3]; 2], g: GateType) -> bool {
    match g {
        GateType::Invert(a, _) => wire_value(nodes, wit, pis, mds, a[0]) != 0 && wire_value(nodes, wit, pis, mds, a[1]) == 1,
        GateType::Negate(a, _) => wire_value(nodes, wit, pis, mds, a[1]) == 0,
        GateType::ScalarMul(a, _) => scalar_mul_fits(
            as_point((wire_value(nodes, wit, pis, mds, a[2]), wire_value(nodes, wit, pis, mds, a[3]))),
            wire_value(nodes, wit, pis, mds, a[0]),
            modulus(a[0].fid),
        ),
        GateType::AffineAdd(a, _) => {
            let m = modulus(a[0].fid);
            &&& valid_point(
                as_point((wire_value(nodes, wit, pis, mds, a[0]), wire_value(nodes, wit, pis, mds, a[1]))),
                m,
            )
            &&& valid_point(
                as_point((wire_value(nodes, wit, pis, mds, a[2]), wire_value(nodes, wit, pis, mds, a[3]))),
                m,
            )
        },
        _ => true,
    }
}

/// The checks of every gate pass.
pub open spec fn checks_pass(nodes: Seq<GateType>, wit: Seq<Option<PastaFE>>, pis: Seq<Option<PastaFE>>, mds: [[[PastaFE; 3]; 3]; 2]) -> bool {
    forall|i: int| 0 <= i < nodes.len() ==> #[trigger] gate_checks(nodes, wit, pis, mds, nodes[i])
}

/// The checks of every gate in `done` pass.
#[verifier::opaque]
spec fn checks_seen(nodes: Seq<GateType>, wit: Seq<Option<PastaFE>>, pis: Seq<Option<PastaFE>>, mds: [[[PastaFE; 3]; 3]; 2], done: Set<int>) -> bool {
    forall|i: int| #[trigger] done.contains(i) && 0 <= i < nodes.len() ==> gate_checks(nodes, wit, pis, mds, nodes[i])
}

/// The trace of the field at position `k` has room: its padded number of
/// rows fits the trace tables and holds the public-input and message-pass
/// rows and the rows of the gates of the field.
pub open spec fn rows_fit(spec: CircuitSpec, k: int) -> bool {
    exists|p: int|
        #[trigger] padded_rows_spec(p, spec.row_count[k] as int) && p <= usize::MAX / 16
            && spec.public_input_wire_count[k] + spec.message_pass_wire_count[k] + row_gate_nodes(
            spec.nodes(),
            field_at(k),
        ).len() + 255 * scalar_mul_nodes(spec.nodes(), field_at(k)).len() <= p
}

/// What building the traces of a circuit needs: as many
/// `Fp` witnesses and public inputs with a value as the circuit counts, room
/// in both traces, a value for every witness and public input, and the
/// checks of every gate passing.
pub open spec fn trace_ready(b: TraceBuilder, mds: [[[PastaFE; 3]; 3]; 2]) -> bool {
    let nodes = b.spec.nodes();
    &&& b.witness_counts[0] == b.spec.witness_wire_count[0]
    &&& b.public_input_counts[0] == b.spec.public_input_wire_count[0]
    &&& rows_fit(b.spec, 0)
    &&& rows_fit(b.spec, 1)
    &&& inputs_assigned(nodes, b.witnesses@, b.public_inputs@)
    &&& checks_pass(nodes, b.witnesses@, b.public_inputs@, mds)
}

/// The output slots of field `f` hold the values of the wires that their
/// output gates read.
pub open spec fn outputs_evaluate(
    tr: FieldTrace,
    nodes: Seq<GateType>,
    wit: Seq<Option<PastaFE>>,
    pis: Seq<Option<PastaFE>>,
    mds: [[[PastaFE; 3]; 3]; 2],
    f: PastaFieldId,
) -> bool {
    forall|i: int|
        0 <= i < nodes.len() && #[trigger] nodes[i] is Output && output_wire(nodes[i]).fid == f ==> {
            &&& 0 <= output_slot(nodes[i]) < tr.out_wires@.len()
            &&& tr.out_wires@[output_slot(nodes[i])].v() == wire_value(nodes, wit, pis, mds, output_wire(nodes[i]))
        }
}

/// Only one number of rows is the padding of `n`.
pub proof fn lemma_padded_unique(p: int, q: int, n: int)
    requires
        padded_rows_spec(p, n),
        padded_rows_spec(q, n),
    ensures
        p == q,
{
    if p != q {
        let (a, b) = if p < q { (p, q) } else { (q, p) };
        let ka = choose|k: nat| a == pow(2, k);
        let kb = choose|k: nat| b == pow(2, k);
        vstd::arithmetic::power::lemma_pow_strictly_increases_converse(2, ka, kb);
        vstd::arithmetic::power::lemma_pow_adds(2, (ka + 1) as nat, (kb - ka - 1) as nat);
        vstd::arithmetic::power::lemma_pow_positive(2, (kb - ka - 1) as nat);
        assert(pow(2, (ka + 1) as nat) == 2 * pow(2, ka)) by {
            reveal(pow);
        }
        let r = pow(2, (kb - ka - 1) as nat);
        assert(2 * a * r >= 2 * a) by (nonlinear_arith)
            requires
                r >= 1,
                a >= 0,
        ;
        assert(b == 2 * a * r) by (nonlinear_arith)
            requires
                b == pow(2, (ka + 1) as nat) * r,
                pow(2, (ka + 1) as nat) == 2 * a,
        ;
    }
}

/// A finite set missing an element of a finite set `s` it is part of has
/// fewer elements than `s`.
pub proof fn lemma_part_smaller(done: Set<int>, s: Set<int>, x: int)
    requires
        s.finite(),
        s.contains(x),
        !done.contains(x),
    ensures
        done.intersect(s).len() < s.len(),
{
    vstd::set_lib::lemma_len_subset(done.intersect(s).insert(x), s);
}


/// The public inputs `pub_in` are the negated values of the public-input
/// gates of field `f` listed in `ord`, in that order, each once, all in
/// `done`.
#[verifier::opaque]
spec fn pi_listed(
    pub_in: Seq<PastaFE>,
    ord: Seq<int>,
    nodes: Seq<GateType>,
    pis: Seq<Option<PastaFE>>,
    f: PastaFieldId,
    done: Set<int>,
) -> bool {
    &&& ord.len() == pub_in.len()
    &&& ord.no_duplicates()
    &&& forall|j: int|
        0 <= j < ord.len() ==> {
            &&& done.contains(#[trigger] ord[j])
            &&& 0 <= ord[j] < nodes.len()
            &&& crate::circuit::is_public_input_of(nodes[ord[j]], f)
            &&& pis[ord[j]] matches Some(x) && pub_in[j].v() == (0 - x.v()) % modulus(f)
        }
}

/// The public inputs of field `f` are, each once, the negated values of the
/// `count` public-input gates of `f`.
pub open spec fn public_inputs_negated(
    tr: FieldTrace,
    nodes: Seq<GateType>,
    pis: Seq<Option<PastaFE>>,
    f: PastaFieldId,
    count: int,
) -> bool {
    exists|ord: Seq<int>|
        {
            &&& ord.len() == count
            &&& ord.no_duplicates()
            &&& forall|j: int|
                0 <= j < count ==> {
                    &&& 0 <= #[trigger] ord[j] < nodes.len()
                    &&& crate::circuit::is_public_input_of(nodes[ord[j]], f)
                    &&& pis[ord[j]] matches Some(x) && tr.public_inputs@[j].v() == (0 - x.v()) % modulus(f)
                }
        }
}

/// Evaluating node `x` keeps the list of the public inputs of field `f`,
/// and appends its own when it is a public-input gate of `f`.
proof fn lemma_pi_step(
    pub0: Seq<PastaFE>,
    pub1: Seq<PastaFE>,
    ord: Seq<int>,
    nodes: Seq<GateType>,
    pis: Seq<Option<PastaFE>>,
    f: PastaFieldId,
    done: Set<int>,
    x: int,
)
    requires
        pi_listed(pub0, ord, nodes, pis, f, done),
        !done.contains(x),
        0 <= x < nodes.len(),
        !crate::circuit::is_public_input_of(nodes[x], f) ==> pub1 == pub0,
        crate::circuit::is_public_input_of(nodes[x], f) ==> {
            &&& pub1 == pub0.push(pub1.last())
            &&& pis[x] matches Some(v) && pub1.last().v() == (0 - v.v()) % modulus(f)
        },
    ensures
        pi_listed(
            pub1,
            if crate::circuit::is_public_input_of(nodes[x], f) {
                ord.push(x)
            } else {
                ord
            },
            nodes,
            pis,
            f,
            done.insert(x),
        ),
{
    reveal(pi_listed);
    if crate::circuit::is_public_input_of(nodes[x], f) {
        let o2 = ord.push(x);
        assert forall|a: int, b: int| 0 <= a < o2.len() && 0 <= b < o2.len() && a != b implies o2[a] != o2[b] by {
            if a < ord.len() && b < ord.len() {
                assert(ord[a] != ord[b]);
            } else if a < ord.len() {
                assert(done.contains(ord[a]));
            } else {
                assert(done.contains(ord[b]));
            }
        }
        assert forall|j: int| 0 <= j < o2.len() implies {
            &&& done.insert(x).contains(#[trigger] o2[j])
            &&& 0 <= o2[j] < nodes.len()
            &&& crate::circuit::is_public_input_of(nodes[o2[j]], f)
            &&& pis[o2[j]] matches Some(v) && pub1[j].v() == (0 - v.v()) % modulus(f)
        } by {
            if j < ord.len() {
                assert(o2[j] == ord[j]);
                assert(pub1[j] == pub0[j]);
            }
        }
    } else {
        assert forall|j: int| 0 <= j < ord.len() implies done.insert(x).contains(#[trigger] ord[j]) by {}
    }
}

/// Once every public-input gate of field `f` is listed, the public inputs
/// of the trace, which begin with the listed ones, are their negated values.
proof fn lemma_pi_final(
    pre: Seq<PastaFE>,
    tr: FieldTrace,
    ord: Seq<int>,
    nodes: Seq<GateType>,
    pis: Seq<Option<PastaFE>>,
    f: PastaFieldId,
    done: Set<int>,
    extra: Seq<PastaFE>,
)
    requires
        pi_listed(pre, ord, nodes, pis, f, done),
        tr.public_inputs@ == pre + extra,
    ensures
        public_inputs_negated(tr, nodes, pis, f, pre.len() as int),
{
    reveal(pi_listed);
    assert forall|j: int| 0 <= j < pre.len() implies {
        &&& 0 <= #[trigger] ord[j] < nodes.len()
        &&& crate::circuit::is_public_input_of(nodes[ord[j]], f)
        &&& pis[ord[j]] matches Some(x) && tr.public_inputs@[j].v() == (0 - x.v()) % modulus(f)
    } by {
        assert(tr.public_inputs@[j] == pre[j]);
    }
}

/// The checks of the nodes in `done` and of node `x` passed.
proof fn lemma_checks_step(
    nodes: Seq<GateType>,
    wit: Seq<Option<PastaFE>>,
    pis: Seq<Option<PastaFE>>,
    mds: [[[PastaFE; 3]; 3]; 2],
    done: Set<int>,
    x: int,
)
    requires
        checks_seen(nodes, wit, pis, mds, done),
        0 <= x < nodes.len() ==> gate_checks(nodes, wit, pis, mds, nodes[x]),
    ensures
        checks_seen(nodes, wit, pis, mds, done.insert(x)),
{
    reveal(checks_seen);
}

/// In a circuit, each input of the next node to evaluate
/// comes from an earlier node and holds the value of the circuit
/// evaluation, tagged with its field.
proof fn lemma_inputs_evaluated(
    spec: CircuitSpec,
    wit: Seq<Option<PastaFE>>,
    pis: Seq<Option<PastaFE>>,
    mds: [[[PastaFE; 3]; 3]; 2],
    order: Seq<usize>,
    t: int,
    done: Set<int>,
    computed: Set<int>,
    vals: Seq<PastaFE>,
    f: PastaFieldId,
)
    requires
        spec.wf(),
        is_topo_order(order, spec.nodes().len() as int, spec.edges()),
        0 <= t < spec.nodes().len(),
        forall|a: int| 0 <= a < spec.nodes().len() ==> #[trigger] order_has(order, a),
        forall|k: int| 0 <= k < t ==> done.contains(#[trigger] order[k] as int),
        !done.contains(order[t] as int),
        outs_computed(spec.nodes(), done, computed, f),
        computed_from(spec.nodes(), done, computed, f),
        evaluated(spec.nodes(), wit, pis, mds, done, vals, f),
        gate_fid(spec.nodes()[order[t] as int]) == f,
    ensures
        forall|k: int|
            0 <= k < edged_inputs(spec.nodes()[order[t] as int]).len() ==> {
                let w = #[trigger] edged_inputs(spec.nodes()[order[t] as int])[k];
                &&& w.node_idx < order[t]
                &&& w.fid == f
                &&& 0 <= w.id < vals.len()
                &&& vals[w.id as int].v() == wire_value(spec.nodes(), wit, pis, mds, w)
                &&& vals[w.id as int].fid == Some(f)
            },
{
    let nodes = spec.nodes();
    let x = order[t] as int;
    assert(order[t] < nodes.len());
    let g = nodes[x];
    assert(gate_ok(g, x, spec.wire_count));
    lemma_gate_fields(g, x, spec.wire_count);
    lemma_gate_ready(spec, order, t, done, computed, f);
    assert forall|k: int| 0 <= k < edged_inputs(g).len() implies {
        let w = #[trigger] edged_inputs(g)[k];
        &&& w.node_idx < order[t]
        &&& w.fid == f
        &&& 0 <= w.id < vals.len()
        &&& vals[w.id as int].v() == wire_value(nodes, wit, pis, mds, w)
        &&& vals[w.id as int].fid == Some(f)
    } by {
        let w = edged_inputs(g)[k];
        assert(produced(nodes, w) && crate::circuit::has_edge(spec.edges(), w, x));
        let e = choose|e: int| 0 <= e < spec.edges().len() && #[trigger] spec.edges()[e] == (w.node_idx as int, x, w);
        assert(spec.edges()[e].0 < spec.edges()[e].1);
        assert(computed.contains(w.id as int));
        let (d, l) = choose|d: int, l: int|
            #![trigger outputs(nodes[d])[l]]
            done.contains(d) && 0 <= d < nodes.len() && 0 <= l < outputs(nodes[d]).len() && outputs(nodes[d])[l].fid == f
                && outputs(nodes[d])[l].id == w.id as int;
        let a = w.node_idx as int;
        assert(outputs(nodes[a])[w.output_id as int] == w);
        assert(d == a && l == w.output_id);
    }
}

/// The state of field `f` after the nodes in `done` of a circuit: their
/// outputs hold the values of the evaluation, the gates of `f` among them
/// took their rows, and the rows handed out fit.
#[verifier::opaque]
spec fn field_progress(
    nodes: Seq<GateType>,
    wit: Seq<Option<PastaFE>>,
    pis: Seq<Option<PastaFE>>,
    mds: [[[PastaFE; 3]; 3]; 2],
    done: Set<int>,
    st: FieldState,
    f: PastaFieldId,
) -> bool {
    &&& evaluated(nodes, wit, pis, mds, done, st.vals@, f)
    &&& st.row_count == done.intersect(row_gate_nodes(nodes, f)).len() + 255 * done.intersect(
        scalar_mul_nodes(nodes, f),
    ).len()
    &&& (st.row_count == 0 || st.row_count + st.pi_offset + st.mp_offset <= st.tr.rows)
    &&& st.public_row_count <= st.tr.rows
    &&& (st.mp_row_count == 0 || st.pi_offset + st.mp_row_count <= st.tr.rows)
}

/// Evaluating the next node, a gate of field `f`, keeps the progress
/// of `f`, and the checks it makes passed.
#[verifier::spinoff_prover]
#[verifier::rlimit(80)]
proof fn lemma_field_step(
    spec: CircuitSpec,
    wit: Seq<Option<PastaFE>>,
    pis: Seq<Option<PastaFE>>,
    mds: [[[PastaFE; 3]; 3]; 2],
    order: Seq<usize>,
    t: int,
    done: Set<int>,
    st0: FieldState,
    st1: FieldState,
    f: PastaFieldId,
)
    requires
        spec.wf(),
        is_topo_order(order, spec.nodes().len() as int, spec.edges()),
        0 <= t < spec.nodes().len(),
        forall|a: int| 0 <= a < spec.nodes().len() ==> #[trigger] order_has(order, a),
        forall|k: int| 0 <= k < t ==> done.contains(#[trigger] order[k] as int),
        !done.contains(order[t] as int),
        done.finite(),
        st0.inv(),
        outs_computed(spec.nodes(), done, st0.computed@, f),
        computed_from(spec.nodes(), done, st0.computed@, f),
        field_progress(spec.nodes(), wit, pis, mds, done, st0, f),
        gate_fid(spec.nodes()[order[t] as int]) == f,
        wit.len() == spec.nodes().len(),
        pis.len() == spec.nodes().len(),
        gate_succeeds(st0, spec.nodes()[order[t] as int], wit[order[t] as int], pis[order[t] as int]),
        st1.vals@.len() == st0.vals@.len(),
        st0.vals@.len() == spec.wire_count[f.spec_idx()],
        st1.tr.rows == st0.tr.rows,
        st1.pi_offset == st0.pi_offset,
        st1.mp_offset == st0.mp_offset,
        st1.public_row_count == st0.public_row_count + if spec.nodes()[order[t] as int] is PublicInput {
            1int
        } else {
            0int
        },
        !(spec.nodes()[order[t] as int] is Output) ==> st1.keeps(st0),
        spec.nodes()[order[t] as int] is Output ==> st1.vals == st0.vals,
        st1.row_count == st0.row_count + gate_rows(spec.nodes()[order[t] as int]),
        st1.mp_row_count == st0.mp_row_count,
        !(spec.nodes()[order[t] as int] is FpMessagePass),
        forall|k: int|
            0 <= k < outputs(spec.nodes()[order[t] as int]).len() ==> {
                &&& (#[trigger] st1.vals@[outputs(spec.nodes()[order[t] as int])[k].id as int]).v() == gate_value(
                    spec.nodes()[order[t] as int],
                    st0.vals@,
                    wit[order[t] as int],
                    pis[order[t] as int],
                    mds[f.spec_idx()],
                    k,
                )
                &&& st1.vals@[outputs(spec.nodes()[order[t] as int])[k].id as int].fid == out_fid(
                    spec.nodes()[order[t] as int],
                    st0.vals@,
                    k,
                    f,
                )
            },
    ensures
        field_progress(spec.nodes(), wit, pis, mds, done.insert(order[t] as int), st1, f),
        gate_checks(spec.nodes(), wit, pis, mds, spec.nodes()[order[t] as int]),
{
    reveal(field_progress);
    reveal(checks_seen);
    let nodes = spec.nodes();
    let x = order[t] as int;
    assert(order[t] < nodes.len());
    let g = nodes[x];
    assert(gate_ok(g, x, spec.wire_count));
    lemma_gate_fields(g, x, spec.wire_count);
    lemma_inputs_evaluated(spec, wit, pis, mds, order, t, done, st0.computed@, st0.vals@, f);
    let e = edged_inputs(g);
    assert forall|d: int, k: int|
        #![trigger done.insert(x).contains(d), outputs(nodes[d])[k]]
        done.insert(x).contains(d) && 0 <= d < nodes.len() && 0 <= k < outputs(nodes[d]).len() && outputs(
            nodes[d],
        )[k].fid == f implies {
        &&& 0 <= outputs(nodes[d])[k].id < st1.vals@.len()
        &&& st1.vals@[outputs(nodes[d])[k].id as int].v() == node_value(nodes, wit, pis, mds, d as nat, k)
        &&& st1.vals@[outputs(nodes[d])[k].id as int].fid == Some(f)
    } by {
        if d == x {
            assert forall|j: int| 0 <= j < edged_inputs(g).len() implies st0.vals@[(#[trigger] edged_inputs(g)[j]).id as int].fid
                == Some(f) by {
                assert(edged_inputs(nodes[order[t] as int])[j] == edged_inputs(g)[j]);
            }
            lemma_value_step(spec, wit, pis, mds, x, g, st0.vals@, st1.vals@[outputs(g)[k].id as int], k, f);
        } else {
            assert(done.contains(d));
            let o = outputs(nodes[d])[k];
            assert(st0.computed@.contains(o.id as int));
        }
    }
    lemma_count_step(done, row_gate_nodes(nodes, f), x);
    lemma_count_step(done, scalar_mul_nodes(nodes, f), x);
    match g {
        GateType::ScalarMul(a, _) => {
            assert(e[0] == a[0] && e[1] == a[1] && e[2] == a[2] && e[3] == a[3]);
            reveal(scalar_mul_fits);
        },
        GateType::Invert(a, _) => {
            assert(e[0] == a[0] && e[1] == a[1]);
        },
        GateType::Negate(a, _) => {
            assert(e[0] == a[0] && e[1] == a[1]);
        },
        GateType::AffineAdd(a, _) => {
            assert(e[0] == a[0] && e[1] == a[1] && e[2] == a[2] && e[3] == a[3]);
            assert(st0.vals@[a[0].id as int].fits(f) && st0.vals@[a[2].id as int].fits(f));
        },
        _ => {},
    }
}

/// The value a gate gives its output `k` from the values of its
/// inputs is the value of the circuit evaluation at that output.
#[verifier::spinoff_prover]
#[verifier::rlimit(60)]
proof fn lemma_value_step(
    spec: CircuitSpec,
    wit: Seq<Option<PastaFE>>,
    pis: Seq<Option<PastaFE>>,
    mds: [[[PastaFE; 3]; 3]; 2],
    x: int,
    g: GateType,
    vals: Seq<PastaFE>,
    out: PastaFE,
    k: int,
    f: PastaFieldId,
)
    requires
        spec.wf(),
        0 <= x < spec.nodes().len(),
        g == spec.nodes()[x],
        !(g is FpMessagePass),
        gate_fid(g) == f,
        gate_ok(g, x, spec.wire_count),
        0 <= k < outputs(g).len(),
        vals.len() == spec.wire_count[f.spec_idx()],
        forall|j: int|
            0 <= j < edged_inputs(g).len() ==> {
                let w = #[trigger] edged_inputs(g)[j];
                &&& w.node_idx < x
                &&& 0 <= w.id < vals.len()
                &&& vals[w.id as int].v() == wire_value(spec.nodes(), wit, pis, mds, w)
            },
        out.v() == gate_value(g, vals, wit[x], pis[x], mds[f.spec_idx()], k),
        out.fid == out_fid(g, vals, k, f),
        forall|j: int| 0 <= j < edged_inputs(g).len() ==> vals[(#[trigger] edged_inputs(g)[j]).id as int].fid == Some(f),
    ensures
        0 <= outputs(g)[k].id < vals.len(),
        out.v() == node_value(spec.nodes(), wit, pis, mds, x as nat, k),
        out.fid == Some(f),
{
    reveal_with_fuel(node_value, 1);
    let e = edged_inputs(g);
    lemma_gate_fields(g, x, spec.wire_count);
    match g {
        GateType::Witness(_, o) => {
            assert(crate::circuit::out_ok(o[0], x, f, spec.wire_count));
        },
        GateType::PublicInput(_, o) => {
            assert(crate::circuit::out_ok(o[0], x, f, spec.wire_count));
        },
        GateType::Constant(_, o, _) => {
            assert(crate::circuit::out_ok(o[0], x, f, spec.wire_count));
        },
        GateType::Add(a, o) => {
            assert(e[0] == a[0] && e[1] == a[1]);
            assert(crate::circuit::out_ok(o[0], x, f, spec.wire_count));
        },
        GateType::Multiply(a, o) => {
            assert(e[0] == a[0] && e[1] == a[1]);
            assert(crate::circuit::out_ok(o[0], x, f, spec.wire_count));
        },
        GateType::Negate(a, o) => {
            assert(e[0] == a[0] && e[1] == a[1]);
            assert(crate::circuit::out_ok(o[0], x, f, spec.wire_count));
        },
        GateType::Invert(a, o) => {
            assert(e[0] == a[0] && e[1] == a[1]);
            assert(crate::circuit::out_ok(o[0], x, f, spec.wire_count));
        },
        GateType::Poseidon(a, o, _) => {
            assert(e[0] == a[0] && e[1] == a[1] && e[2] == a[2]);
            assert(crate::circuit::out_ok(o[k], x, f, spec.wire_count));
        },
        GateType::PoseidonEnd(a, o) => {
            assert(e[0] == a[0] && e[1] == a[1] && e[2] == a[2]);
            assert(crate::circuit::out_ok(o[k], x, f, spec.wire_count));
        },
        GateType::AffineAdd(a, o) => {
            assert(e[0] == a[0] && e[1] == a[1] && e[2] == a[2] && e[3] == a[3]);
            assert(crate::circuit::out_ok(o[k], x, f, spec.wire_count));
        },
        GateType::ScalarMul(a, o) => {
            assert(e[0] == a[0] && e[1] == a[1] && e[2] == a[2] && e[3] == a[3]);
            assert(crate::circuit::out_ok(o[k], x, f, spec.wire_count));
        },
        _ => {},
    }
}

/// A node whose outputs and rows are of another field than `f` keeps the
/// progress of `f`.
proof fn lemma_field_other(
    nodes: Seq<GateType>,
    wit: Seq<Option<PastaFE>>,
    pis: Seq<Option<PastaFE>>,
    mds: [[[PastaFE; 3]; 3]; 2],
    done: Set<int>,
    st: FieldState,
    f: PastaFieldId,
    x: int,
)
    requires
        field_progress(nodes, wit, pis, mds, done, st, f),
        done.finite(),
        !done.contains(x),
        0 <= x < nodes.len(),
        forall|k: int| 0 <= k < outputs(nodes[x]).len() ==> (#[trigger] outputs(nodes[x])[k]).fid != f,
        !(row_gate(nodes[x]) && gate_fid(nodes[x]) == f),
    ensures
        field_progress(nodes, wit, pis, mds, done.insert(x), st, f),
{
    reveal(field_progress);
    reveal(checks_seen);
    lemma_count_step(done, row_gate_nodes(nodes, f), x);
    lemma_count_step(done, scalar_mul_nodes(nodes, f), x);
    assert forall|d: int, k: int|
        #![trigger done.insert(x).contains(d), outputs(nodes[d])[k]]
        done.insert(x).contains(d) && 0 <= d < nodes.len() && 0 <= k < outputs(nodes[d]).len() && outputs(
            nodes[d],
        )[k].fid == f implies {
        &&& 0 <= outputs(nodes[d])[k].id < st.vals@.len()
        &&& st.vals@[outputs(nodes[d])[k].id as int].v() == node_value(nodes, wit, pis, mds, d as nat, k)
        &&& st.vals@[outputs(nodes[d])[k].id as int].fid == Some(f)
    } by {
        if d == x {
            assert(outputs(nodes[x])[k].fid != f);
        } else {
            assert(done.contains(d));
        }
    }
}

/// In a circuit whose inputs are assigned, whose checks pass
/// and whose trace of field `f` has room, evaluating the next node of `f`
/// succeeds.
#[verifier::spinoff_prover]
#[verifier::rlimit(100)]
proof fn lemma_ready_step(
    spec: CircuitSpec,
    wit: Seq<Option<PastaFE>>,
    pis: Seq<Option<PastaFE>>,
    mds: [[[PastaFE; 3]; 3]; 2],
    order: Seq<usize>,
    t: int,
    done: Set<int>,
    st: FieldState,
    f: PastaFieldId,
)
    requires
        spec.wf(),
        is_topo_order(order, spec.nodes().len() as int, spec.edges()),
        0 <= t < spec.nodes().len(),
        forall|a: int| 0 <= a < spec.nodes().len() ==> #[trigger] order_has(order, a),
        forall|k: int| 0 <= k < t ==> done.contains(#[trigger] order[k] as int),
        !done.contains(order[t] as int),
        done.finite(),
        outs_computed(spec.nodes(), done, st.computed@, f),
        computed_from(spec.nodes(), done, st.computed@, f),
        field_progress(spec.nodes(), wit, pis, mds, done, st, f),
        gate_fid(spec.nodes()[order[t] as int]) == f,
        wit.len() == spec.nodes().len(),
        pis.len() == spec.nodes().len(),
        inputs_assigned(spec.nodes(), wit, pis),
        checks_pass(spec.nodes(), wit, pis, mds),
        st.vals@.len() == spec.wire_count[f.spec_idx()],
        st.public_row_count == done.intersect(crate::circuit::public_input_nodes(spec.nodes(), f)).len(),
        st.pi_offset == spec.public_input_wire_count[f.spec_idx()],
        st.mp_offset == spec.message_pass_wire_count[f.spec_idx()],
        st.pi_offset + st.mp_offset + row_gate_nodes(spec.nodes(), f).len() + 255 * scalar_mul_nodes(
            spec.nodes(),
            f,
        ).len() <= st.tr.rows,
        st.tr.out_wires@.len() == spec.output_wire_count[f.spec_idx()],
        st.inv(),
        !(spec.nodes()[order[t] as int] is FpMessagePass),
        !(spec.nodes()[order[t] as int] is ScalarMul),
    ensures
        gate_succeeds(st, spec.nodes()[order[t] as int], wit[order[t] as int], pis[order[t] as int]),
{
    reveal(field_progress);
    reveal(checks_seen);
    let nodes = spec.nodes();
    let n = nodes.len() as int;
    let x = order[t] as int;
    assert(order[t] < nodes.len());
    let g = nodes[x];
    assert(gate_ok(g, x, spec.wire_count));
    let rg = row_gate_nodes(nodes, f);
    let sm = scalar_mul_nodes(nodes, f);
    let pi = crate::circuit::public_input_nodes(nodes, f);
    crate::circuit::lemma_index_set_finite(sm, n);
    crate::circuit::lemma_index_set_finite(rg, n);
    crate::circuit::lemma_index_set_finite(pi, n);
    if f == PastaFieldId::Fp {
        assert(st.pi_offset == pi.len());
    } else {
        assert(st.pi_offset == pi.len());
    }
    vstd::set_lib::lemma_len_subset(done.intersect(sm), sm);
    if row_gate(g) {
        assert(rg.contains(x));
        lemma_part_smaller(done, rg, x);
    }
    if g is PublicInput {
        assert(pi.contains(x));
        lemma_part_smaller(done, pi, x);
    }
    if g is ScalarMul {
        assert(sm.contains(x));
        lemma_part_smaller(done, sm, x);
    }
    lemma_inputs_evaluated(spec, wit, pis, mds, order, t, done, st.computed@, st.vals@, f);
    assert(gate_checks(nodes, wit, pis, mds, g));
    assert(inputs_assigned(nodes, wit, pis) ==> (g is Witness ==> wit[x] is Some));
    match g {
        GateType::Invert(a, _) => {
            assert(edged_inputs(g)[0] == a[0] && edged_inputs(g)[1] == a[1]);
        },
        GateType::Negate(a, _) => {
            assert(edged_inputs(g)[0] == a[0] && edged_inputs(g)[1] == a[1]);
        },
        GateType::Add(a, _) => {
            assert(edged_inputs(g)[0] == a[0]);
        },
        GateType::Multiply(a, _) => {
            assert(edged_inputs(g)[0] == a[0]);
        },
        GateType::Output(a, _, k) => {
            assert(a[0].fid == f);
        },
        GateType::Poseidon(a, _, _) => {
            assert(edged_inputs(g)[0] == a[0] && edged_inputs(g)[1] == a[1] && edged_inputs(g)[2] == a[2]);
        },
        GateType::AffineAdd(a, _) => {
            assert(edged_inputs(g)[0] == a[0] && edged_inputs(g)[1] == a[1]);
            assert(edged_inputs(g)[2] == a[2] && edged_inputs(g)[3] == a[3]);
            assert(st.vals@[a[0].id as int].fits(f) && st.vals@[a[2].id as int].fits(f));
        },
        _ => {},
    }
}

/// In a circuit ready to be traced, evaluating the next node, a scalar
/// multiplication of field `f`, succeeds.
#[verifier::spinoff_prover]
#[verifier::rlimit(100)]
proof fn lemma_ready_scalar_mul(
    spec: CircuitSpec,
    wit: Seq<Option<PastaFE>>,
    pis: Seq<Option<PastaFE>>,
    mds: [[[PastaFE; 3]; 3]; 2],
    order: Seq<usize>,
    t: int,
    done: Set<int>,
    st: FieldState,
    f: PastaFieldId,
)
    requires
        spec.wf(),
        is_topo_order(order, spec.nodes().len() as int, spec.edges()),
        0 <= t < spec.nodes().len(),
        forall|a: int| 0 <= a < spec.nodes().len() ==> #[trigger] order_has(order, a),
        forall|k: int| 0 <= k < t ==> done.contains(#[trigger] order[k] as int),
        !done.contains(order[t] as int),
        done.finite(),
        outs_computed(spec.nodes(), done, st.computed@, f),
        computed_from(spec.nodes(), done, st.computed@, f),
        field_progress(spec.nodes(), wit, pis, mds, done, st, f),
        gate_fid(spec.nodes()[order[t] as int]) == f,
        wit.len() == spec.nodes().len(),
        pis.len() == spec.nodes().len(),
        inputs_assigned(spec.nodes(), wit, pis),
        checks_pass(spec.nodes(), wit, pis, mds),
        st.vals@.len() == spec.wire_count[f.spec_idx()],
        st.public_row_count == done.intersect(crate::circuit::public_input_nodes(spec.nodes(), f)).len(),
        st.pi_offset == spec.public_input_wire_count[f.spec_idx()],
        st.mp_offset == spec.message_pass_wire_count[f.spec_idx()],
        st.pi_offset + st.mp_offset + row_gate_nodes(spec.nodes(), f).len() + 255 * scalar_mul_nodes(
            spec.nodes(),
            f,
        ).len() <= st.tr.rows,
        st.tr.out_wires@.len() == spec.output_wire_count[f.spec_idx()],
        st.inv(),
        spec.nodes()[order[t] as int] is ScalarMul,
    ensures
        gate_succeeds(st, spec.nodes()[order[t] as int], wit[order[t] as int], pis[order[t] as int]),
{
    reveal(field_progress);
    reveal(checks_seen);
    let nodes = spec.nodes();
    let n = nodes.len() as int;
    let x = order[t] as int;
    assert(order[t] < nodes.len());
    let g = nodes[x];
    assert(gate_ok(g, x, spec.wire_count));
    let rg = row_gate_nodes(nodes, f);
    let sm = scalar_mul_nodes(nodes, f);
    let pi = crate::circuit::public_input_nodes(nodes, f);
    crate::circuit::lemma_index_set_finite(sm, n);
    crate::circuit::lemma_index_set_finite(rg, n);
    crate::circuit::lemma_index_set_finite(pi, n);
    if f == PastaFieldId::Fp {
        assert(st.pi_offset == pi.len());
    } else {
        assert(st.pi_offset == pi.len());
    }
    if row_gate(g) {
        assert(rg.contains(x));
        lemma_part_smaller(done, rg, x);
    }
    if g is PublicInput {
        assert(pi.contains(x));
        lemma_part_smaller(done, pi, x);
    }
    if g is ScalarMul {
        assert(sm.contains(x));
        lemma_part_smaller(done, sm, x);
    }
    lemma_inputs_evaluated(spec, wit, pis, mds, order, t, done, st.computed@, st.vals@, f);
    assert(gate_checks(nodes, wit, pis, mds, g));
    assert(inputs_assigned(nodes, wit, pis) ==> (g is Witness ==> wit[x] is Some));
    if let GateType::ScalarMul(a, _) = g {
        assert(edged_inputs(g)[0] == a[0] && edged_inputs(g)[1] == a[1]);
        assert(edged_inputs(g)[2] == a[2] && edged_inputs(g)[3] == a[3]);
        assert(st.vals@[a[2].id as int].fits(f));
        reveal(scalar_mul_fits);
    }
}

/// When every node of a circuit has been evaluated, each
/// output slot holds the value of the wire its output gate reads.
proof fn lemma_outputs_evaluate(
    spec: CircuitSpec,
    wit: Seq<Option<PastaFE>>,
    pis: Seq<Option<PastaFE>>,
    mds: [[[PastaFE; 3]; 3]; 2],
    done: Set<int>,
    st: FieldState,
    tr: FieldTrace,
    f: PastaFieldId,
)
    requires
        spec.wf(),
        forall|i: int| 0 <= i < spec.nodes().len() ==> #[trigger] done.contains(i),
        outputs_recorded(spec.nodes(), done, st, f),
        field_progress(spec.nodes(), wit, pis, mds, done, st, f),
        tr.out_wires == st.tr.out_wires,
    ensures
        outputs_evaluate(tr, spec.nodes(), wit, pis, mds, f),
{
    reveal(field_progress);
    reveal(checks_seen);
    let nodes = spec.nodes();
    assert forall|i: int| 0 <= i < nodes.len() && #[trigger] nodes[i] is Output && output_wire(nodes[i]).fid == f implies {
        &&& 0 <= output_slot(nodes[i]) < tr.out_wires@.len()
        &&& tr.out_wires@[output_slot(nodes[i])].v() == wire_value(nodes, wit, pis, mds, output_wire(nodes[i]))
    } by {
        assert(done.contains(i));
        let w = output_wire(nodes[i]);
        assert(edged_inputs(nodes[i])[0] == w);
        assert(produced(nodes, w));
        let d = w.node_idx as int;
        assert(done.contains(d));
        assert(outputs(nodes[d])[w.output_id as int] == w);
    }
}

/// The outputs of a message pass at node `x` whose input carries `v` are `v`
/// halved and its lowest bit.
proof fn lemma_mp_value(
    nodes: Seq<GateType>,
    wit: Seq<Option<PastaFE>>,
    pis: Seq<Option<PastaFE>>,
    mds: [[[PastaFE; 3]; 3]; 2],
    x: int,
    v: int,
)
    requires
        0 <= x < nodes.len(),
        nodes[x] matches GateType::FpMessagePass(a, _) && a[0].node_idx < x && v == wire_value(nodes, wit, pis, mds, a[0]),
    ensures
        node_value(nodes, wit, pis, mds, x as nat, 0) == v / 2,
        node_value(nodes, wit, pis, mds, x as nat, 1) == v % 2,
{
    reveal_with_fuel(node_value, 1);
    if let GateType::FpMessagePass(a, _) = nodes[x] {
        assert(edged_inputs(nodes[x])[0] == a[0]);
    }
}

/// Evaluating the next node, a message pass, keeps the progress of `Fq`:
/// its two outputs hold the value of its `Fp` input halved and its lowest
/// bit.
#[verifier::spinoff_prover]
#[verifier::rlimit(100)]
proof fn lemma_mp_step(
    spec: CircuitSpec,
    wit: Seq<Option<PastaFE>>,
    pis: Seq<Option<PastaFE>>,
    mds: [[[PastaFE; 3]; 3]; 2],
    order: Seq<usize>,
    t: int,
    done: Set<int>,
    fp: FieldState,
    fq0: FieldState,
    fq1: FieldState,
)
    requires
        spec.wf(),
        is_topo_order(order, spec.nodes().len() as int, spec.edges()),
        0 <= t < spec.nodes().len(),
        forall|a: int| 0 <= a < spec.nodes().len() ==> #[trigger] order_has(order, a),
        forall|k: int| 0 <= k < t ==> done.contains(#[trigger] order[k] as int),
        !done.contains(order[t] as int),
        done.finite(),
        outs_computed(spec.nodes(), done, fp.computed@, PastaFieldId::Fp),
        computed_from(spec.nodes(), done, fp.computed@, PastaFieldId::Fp),
        field_progress(spec.nodes(), wit, pis, mds, done, fp, PastaFieldId::Fp),
        field_progress(spec.nodes(), wit, pis, mds, done, fq0, PastaFieldId::Fq),
        outs_computed(spec.nodes(), done, fq0.computed@, PastaFieldId::Fq),
        fp.vals@.len() == spec.wire_count[0],
        fq0.vals@.len() == spec.wire_count[1],
        fq1.vals@.len() == fq0.vals@.len(),
        fq1.tr.rows == fq0.tr.rows,
        fq1.pi_offset == fq0.pi_offset,
        fq1.mp_offset == fq0.mp_offset,
        fq1.row_count == fq0.row_count,
        fq1.public_row_count == fq0.public_row_count,
        fq1.mp_row_count == fq0.mp_row_count + 2,
        fq0.pi_offset + fq0.mp_row_count + 2 <= fq0.tr.rows,
        fq1.keeps(fq0),
        spec.nodes()[order[t] as int] matches GateType::FpMessagePass(a, o) && {
            &&& fq1.vals@[o[0].id as int].v() == fp.vals@[a[0].id as int].v() / 2
            &&& fq1.vals@[o[1].id as int].v() == fp.vals@[a[0].id as int].v() % 2
            &&& fq1.vals@[o[0].id as int].fid == Some(PastaFieldId::Fq)
            &&& fq1.vals@[o[1].id as int].fid == Some(PastaFieldId::Fq)
        },
    ensures
        field_progress(spec.nodes(), wit, pis, mds, done.insert(order[t] as int), fq1, PastaFieldId::Fq),
{
    reveal(field_progress);
    let nodes = spec.nodes();
    let x = order[t] as int;
    assert(order[t] < nodes.len());
    let g = nodes[x];
    assert(gate_ok(g, x, spec.wire_count));
    let f = PastaFieldId::Fq;
    lemma_count_step(done, row_gate_nodes(nodes, f), x);
    lemma_count_step(done, scalar_mul_nodes(nodes, f), x);
    if let GateType::FpMessagePass(a, o) = g {
        assert(edged_inputs(g)[0] == a[0]);
        assert(outputs(g)[0] == o[0] && outputs(g)[1] == o[1]);
        assert(crate::circuit::out_ok(o[0], x, f, spec.wire_count));
        assert(crate::circuit::out_ok(o[1], x, f, spec.wire_count));
        lemma_inputs_evaluated(spec, wit, pis, mds, order, t, done, fp.computed@, fp.vals@, PastaFieldId::Fp);
        assert(fp.vals@[a[0].id as int].v() == wire_value(nodes, wit, pis, mds, a[0]));
        assert(a[0].node_idx < x);
        lemma_mp_value(nodes, wit, pis, mds, x, fp.vals@[a[0].id as int].v());
        assert forall|d: int, k: int|
            #![trigger done.insert(x).contains(d), outputs(nodes[d])[k]]
            done.insert(x).contains(d) && 0 <= d < nodes.len() && 0 <= k < outputs(nodes[d]).len() && outputs(
                nodes[d],
            )[k].fid == f implies {
            &&& 0 <= outputs(nodes[d])[k].id < fq1.vals@.len()
            &&& fq1.vals@[outputs(nodes[d])[k].id as int].v() == node_value(nodes, wit, pis, mds, d as nat, k)
            &&& fq1.vals@[outputs(nodes[d])[k].id as int].fid == Some(f)
        } by {
            if d != x {
                assert(done.contains(d));
                assert(fq0.computed@.contains(outputs(nodes[d])[k].id as int));
            } else if k == 0 {
                assert(outputs(nodes[d])[k] == o[0]);
            } else {
                assert(outputs(nodes[d])[k] == o[1]);
            }
        }
    }
}

/// After every node of a circuit has been evaluated, what
/// the trace needed held: the inputs had values, the checks passed and the
/// rows fit.
proof fn lemma_trace_ready_reached(b: TraceBuilder, mds: [[[PastaFE; 3]; 3]; 2], done: Set<int>, fp: FieldState, fq: FieldState, fp_rows: int, fq_rows: int)
    requires
        b.wf(),
        b.witness_counts[0] == b.spec.witness_wire_count[0],
        b.public_input_counts[0] == b.spec.public_input_wire_count[0],
        done.finite(),
        done.len() == b.spec.nodes().len(),
        forall|i: int| 0 <= i < b.spec.nodes().len() ==> #[trigger] done.contains(i),
        forall|i: int| #[trigger] done.contains(i) ==> 0 <= i < b.spec.nodes().len(),
        inputs_seen(b.spec.nodes(), b.witnesses@, b.public_inputs@, done),
        checks_seen(b.spec.nodes(), b.witnesses@, b.public_inputs@, mds, done),
        field_progress(b.spec.nodes(), b.witnesses@, b.public_inputs@, mds, done, fp, PastaFieldId::Fp),
        field_progress(b.spec.nodes(), b.witnesses@, b.public_inputs@, mds, done, fq, PastaFieldId::Fq),
        fp.tr.rows == fp_rows,
        fq.tr.rows == fq_rows,
        padded_rows_spec(fp_rows, b.spec.row_count[0] as int),
        padded_rows_spec(fq_rows, b.spec.row_count[1] as int),
        fp_rows <= usize::MAX / 16,
        fq_rows <= usize::MAX / 16,
        fp.pi_offset == b.spec.public_input_wire_count[0],
        fp.mp_offset == b.spec.message_pass_wire_count[0],
        fq.pi_offset == b.spec.public_input_wire_count[1],
        fq.mp_offset == b.spec.message_pass_wire_count[1],
        fp.public_row_count == done.intersect(crate::circuit::public_input_nodes(b.spec.nodes(), PastaFieldId::Fp)).len(),
        fq.public_row_count == done.intersect(crate::circuit::public_input_nodes(b.spec.nodes(), PastaFieldId::Fq)).len(),
        fp.mp_row_count == fp.mp_offset,
        fq.mp_row_count == fq.mp_offset,
    ensures
        trace_ready(b, mds),
{
    reveal(field_progress);
    reveal(checks_seen);
    let nodes = b.spec.nodes();
    let n = nodes.len() as int;
    let wit = b.witnesses@;
    let pis = b.public_inputs@;
    let rg_fp = row_gate_nodes(nodes, PastaFieldId::Fp);
    let rg_fq = row_gate_nodes(nodes, PastaFieldId::Fq);
    let sm_fp = scalar_mul_nodes(nodes, PastaFieldId::Fp);
    let sm_fq = scalar_mul_nodes(nodes, PastaFieldId::Fq);
    lemma_all_done(done, sm_fp, n);
    lemma_all_done(done, sm_fq, n);
    let pi_fp = crate::circuit::public_input_nodes(nodes, PastaFieldId::Fp);
    let pi_fq = crate::circuit::public_input_nodes(nodes, PastaFieldId::Fq);
    lemma_all_done(done, rg_fp, n);
    lemma_all_done(done, rg_fq, n);
    lemma_all_done(done, pi_fp, n);
    lemma_all_done(done, pi_fq, n);
    assert(field_at(0) == PastaFieldId::Fp && field_at(1) == PastaFieldId::Fq);
    assert(padded_rows_spec(fp_rows, b.spec.row_count[0] as int));
    assert(padded_rows_spec(fq_rows, b.spec.row_count[1] as int));
    assert(rows_fit(b.spec, 0));
    assert(rows_fit(b.spec, 1));
    assert forall|i: int| 0 <= i < nodes.len() implies {
        &&& (#[trigger] nodes[i] is Witness ==> wit[i] is Some)
        &&& (nodes[i] is PublicInput ==> pis[i] is Some)
    } by {
        assert(done.contains(i));
    }
    assert forall|i: int| 0 <= i < nodes.len() implies #[trigger] gate_checks(nodes, wit, pis, mds, nodes[i]) by {
        assert(done.contains(i));
    }
}

impl TraceBuilder {
    /// Builds the traces of both fields: checks that every `Fp` witness and
    /// public input has a value, evaluates the gates in topological order
    /// writing their rows, and appends the message-pass inputs to the public
    /// inputs. The MDS matrices of the Poseidon rounds of each field are
    /// given as arguments.
    ///
    /// A trace that is built satisfies its circuit's arithmetic constraints:
    /// every row meets the arithmetic gate with the public input of its
    /// index, except an equality assertion whose two values differ; and its
    /// copy constraints: all the cells recorded for one wire hold the same
    /// value. Each output gate fills its own output slot with the value held
    /// in the cells of the wire it reads. Every witness and public input had
    /// a value. The trace is built exactly when the circuit is ready for it
    /// (`trace_ready`); each output slot then holds the value of
    /// the circuit evaluated on the assigned inputs, and the public inputs of
    /// each field begin with the negated values of its public-input gates,
    /// each once.
    #[verifier::spinoff_prover]
    #[verifier::rlimit(100)]
    pub fn trace(self, mds_fp: [[PastaFE; 3]; 3], mds_fq: [[PastaFE; 3]; 3]) -> (r: Result<(FieldTrace, FieldTrace), TraceError>)
        requires
            self.wf(),
            mat_in_field(mds_fp, PastaFieldId::Fp),
            mat_in_field(mds_fq, PastaFieldId::Fq),
        ensures
            self.witness_counts[0] != self.spec.witness_wire_count[0] ==> r == Err::<
                (FieldTrace, FieldTrace),
                TraceError,
            >(TraceError::WitnessCount),
            self.witness_counts[0] == self.spec.witness_wire_count[0] && self.public_input_counts[0]
                != self.spec.public_input_wire_count[0] ==> r == Err::<(FieldTrace, FieldTrace), TraceError>(
                TraceError::PublicInputCount,
            ),
            r matches Ok((fp, fq)) ==> {
                &&& fp.wf(PastaFieldId::Fp) && fq.wf(PastaFieldId::Fq)
                &&& padded_rows_spec(fp.rows as int, self.spec.row_count[0] as int)
                &&& padded_rows_spec(fq.rows as int, self.spec.row_count[1] as int)
                &&& fp.copy_constraints@.len() == self.spec.wire_count[0]
                &&& fq.copy_constraints@.len() == self.spec.wire_count[1]
                &&& fp.out_wires@.len() == self.spec.output_wire_count[0]
                &&& fq.out_wires@.len() == self.spec.output_wire_count[1]
                &&& fp.public_inputs@.len() == self.spec.public_input_wire_count[0]
                    + self.spec.message_pass_wire_count[0]
                &&& fq.public_inputs@.len() == self.spec.public_input_wire_count[1]
                    + self.spec.message_pass_wire_count[1]
                &&& trace_arith_ok(fp, fp_modulus())
                &&& trace_arith_ok(fq, fq_modulus())
                &&& copies_agree(fp)
                &&& copies_agree(fq)
                &&& classes_disjoint(fp.copy_constraints@, fp.rows as int)
                &&& classes_disjoint(fq.copy_constraints@, fq.rows as int)
                &&& outputs_match(fp, self.spec.nodes(), PastaFieldId::Fp)
                &&& outputs_match(fq, self.spec.nodes(), PastaFieldId::Fq)
            },
            r is Ok ==> inputs_assigned(self.spec.nodes(), self.witnesses@, self.public_inputs@),
            r is Ok <==> trace_ready(self, [mds_fp, mds_fq]),
            r matches Ok((fp, fq)) ==> {
                &&& public_inputs_negated(fp, self.spec.nodes(), self.public_inputs@, PastaFieldId::Fp, self.spec.public_input_wire_count[0] as int)
                &&& public_inputs_negated(fq, self.spec.nodes(), self.public_inputs@, PastaFieldId::Fq, self.spec.public_input_wire_count[1] as int)
                &&& outputs_evaluate(fp, self.spec.nodes(), self.witnesses@, self.public_inputs@, [mds_fp, mds_fq], PastaFieldId::Fp)
                &&& outputs_evaluate(fq, self.spec.nodes(), self.witnesses@, self.public_inputs@, [mds_fp, mds_fq], PastaFieldId::Fq)
            },
    {
        let ghost mds = [mds_fp, mds_fq];
        if self.witness_counts[0] != self.spec.witness_wire_count[0] {
            return Err(TraceError::WitnessCount);
        }
        if self.public_input_counts[0] != self.spec.public_input_wire_count[0] {
            return Err(TraceError::PublicInputCount);
        }
        let fp_rows = match padded_rows(self.spec.row_count[0]) {
            Some(p) => p,
            None => {
                proof {
                    if rows_fit(self.spec, 0) {
                        let p = choose|p: int|
                            #[trigger] padded_rows_spec(p, self.spec.row_count[0] as int) && p <= usize::MAX / 16
                                && self.spec.public_input_wire_count[0] + self.spec.message_pass_wire_count[0]
                                + row_gate_nodes(self.spec.nodes(), field_at(0)).len() + 255 * scalar_mul_nodes(
                                self.spec.nodes(),
                                field_at(0),
                            ).len() <= p;
                    }
                }
                return Err(TraceError::RowOverflow);
            },
        };
        let fq_rows = match padded_rows(self.spec.row_count[1]) {
            Some(p) => p,
            None => {
                proof {
                    if rows_fit(self.spec, 1) {
                        let p = choose|p: int|
                            #[trigger] padded_rows_spec(p, self.spec.row_count[1] as int) && p <= usize::MAX / 16
                                && self.spec.public_input_wire_count[1] + self.spec.message_pass_wire_count[1]
                                + row_gate_nodes(self.spec.nodes(), field_at(1)).len() + 255 * scalar_mul_nodes(
                                self.spec.nodes(),
                                field_at(1),
                            ).len() <= p;
                    }
                }
                return Err(TraceError::RowOverflow);
            },
        };
        proof {
            if rows_fit(self.spec, 0) {
                let p = choose|p: int|
                    #[trigger] padded_rows_spec(p, self.spec.row_count[0] as int) && p <= usize::MAX / 16
                        && self.spec.public_input_wire_count[0] + self.spec.message_pass_wire_count[0]
                        + row_gate_nodes(self.spec.nodes(), field_at(0)).len() + 255 * scalar_mul_nodes(
                        self.spec.nodes(),
                        field_at(0),
                    ).len() <= p;
                lemma_padded_unique(p, fp_rows as int, self.spec.row_count[0] as int);
            }
            if rows_fit(self.spec, 1) {
                let p = choose|p: int|
                    #[trigger] padded_rows_spec(p, self.spec.row_count[1] as int) && p <= usize::MAX / 16
                        && self.spec.public_input_wire_count[1] + self.spec.message_pass_wire_count[1]
                        + row_gate_nodes(self.spec.nodes(), field_at(1)).len() + 255 * scalar_mul_nodes(
                        self.spec.nodes(),
                        field_at(1),
                    ).len() <= p;
                lemma_padded_unique(p, fq_rows as int, self.spec.row_count[1] as int);
            }
            assert(field_at(0) == PastaFieldId::Fp && field_at(1) == PastaFieldId::Fq);
        }
        let mut fp = FieldState::new(
            PastaFieldId::Fp,
            fp_rows,
            self.spec.wire_count[0],
            self.spec.output_wire_count[0],
            self.spec.public_input_wire_count[0],
            self.spec.message_pass_wire_count[0],
        )?;
        let mut fq = FieldState::new(
            PastaFieldId::Fq,
            fq_rows,
            self.spec.wire_count[1],
            self.spec.output_wire_count[1],
            self.spec.public_input_wire_count[1],
            self.spec.message_pass_wire_count[1],
        )?;
        proof {
            assert(crate::circuit::edges_forward(self.spec.edges()));
        }
        let order = match graph_toposort(&self.spec.graph) {
            Ok(o) => o,
            Err(_) => return Err(TraceError::Cycle),
        };
        let ghost wc = self.spec.wire_count;
        let ghost n = self.spec.nodes().len();
        let ghost nodes = self.spec.nodes();
        let ghost pi_fp = crate::circuit::public_input_nodes(nodes, PastaFieldId::Fp);
        let ghost pi_fq = crate::circuit::public_input_nodes(nodes, PastaFieldId::Fq);
        let ghost mps = crate::circuit::message_pass_nodes(nodes);
        let ghost wit = self.witnesses@;
        let ghost pis = self.public_inputs@;
        let ghost rg_fp = row_gate_nodes(nodes, PastaFieldId::Fp);
        let ghost rg_fq = row_gate_nodes(nodes, PastaFieldId::Fq);
        let ghost sm_fp = scalar_mul_nodes(nodes, PastaFieldId::Fp);
        let ghost sm_fq = scalar_mul_nodes(nodes, PastaFieldId::Fq);
        let ghost mut done: Set<int> = Set::empty();
        let ghost mut pio_fp: Seq<int> = Seq::empty();
        let ghost mut pio_fq: Seq<int> = Seq::empty();
        proof {
            reveal(pi_listed);
            reveal(field_progress);
            reveal(checks_seen);
            assert(done.intersect(rg_fp) =~= Set::empty());
            assert(done.intersect(rg_fq) =~= Set::empty());
            assert(done.intersect(sm_fp) =~= Set::empty());
            assert(done.intersect(sm_fq) =~= Set::empty());
            assert(done.intersect(pi_fp) =~= Set::empty());
            assert(done.intersect(pi_fq) =~= Set::empty());
            assert(done.intersect(mps) =~= Set::empty());
        }
        proof {
            lemma_order_covers(order@, n as int);
        }
        let mut t: usize = 0;
        while t < order.len()
            invariant
                self.wf(),
                is_topo_order(order@, n as int, self.spec.edges()),
                forall|a: int| 0 <= a < n ==> #[trigger] order_has(order@, a),
                outs_computed(nodes, done, fp.computed@, PastaFieldId::Fp),
                computed_from(nodes, done, fp.computed@, PastaFieldId::Fp),
                outs_computed(nodes, done, fq.computed@, PastaFieldId::Fq),
                computed_from(nodes, done, fq.computed@, PastaFieldId::Fq),
                outputs_recorded(nodes, done, fp, PastaFieldId::Fp),
                outputs_recorded(nodes, done, fq, PastaFieldId::Fq),
                self.witness_counts[0] == self.spec.witness_wire_count[0],
                self.public_input_counts[0] == self.spec.public_input_wire_count[0],
                padded_rows_spec(fp_rows as int, self.spec.row_count[0] as int),
                padded_rows_spec(fq_rows as int, self.spec.row_count[1] as int),
                wc == self.spec.wire_count,
                n == self.spec.nodes().len(),
                mat_in_field(mds_fp, PastaFieldId::Fp),
                mat_in_field(mds_fq, PastaFieldId::Fq),
                fp.inv() && fq.inv(),
                fp.fid == PastaFieldId::Fp && fq.fid == PastaFieldId::Fq,
                fp.vals@.len() == wc[0] && fq.vals@.len() == wc[1],
                fp.tr.rows == fp_rows && fq.tr.rows == fq_rows,
                fp.pi_offset == self.spec.public_input_wire_count[0],
                fp.mp_offset == self.spec.message_pass_wire_count[0],
                fq.pi_offset == self.spec.public_input_wire_count[1],
                fq.mp_offset == self.spec.message_pass_wire_count[1],
                fp.tr.out_wires@.len() == self.spec.output_wire_count[0],
                fq.tr.out_wires@.len() == self.spec.output_wire_count[1],
                order@.len() == n,
                forall|i: int| 0 <= i < n ==> #[trigger] order@[i] < n,
                forall|i: int, j: int| 0 <= i < j < n ==> order@[i] != order@[j],
                t <= n,
                nodes == self.spec.nodes(),
                pi_fp == crate::circuit::public_input_nodes(nodes, PastaFieldId::Fp),
                pi_fq == crate::circuit::public_input_nodes(nodes, PastaFieldId::Fq),
                mps == crate::circuit::message_pass_nodes(nodes),
                done.finite(),
                done.len() == t,
                forall|i: int| #[trigger] done.contains(i) ==> 0 <= i < n,
                forall|k: int| 0 <= k < t ==> done.contains(#[trigger] order@[k] as int),
                forall|i: int| #[trigger] done.contains(i) ==> exists|k: int| 0 <= k < t && order@[k] as int == i,
                fp.public_row_count == done.intersect(pi_fp).len(),
                fq.public_row_count == done.intersect(pi_fq).len(),
                fp.mp_row_count == 0,
                fq.mp_row_count == 2 * done.intersect(mps).len(),
                wit == self.witnesses@,
                pis == self.public_inputs@,
                mds == [mds_fp, mds_fq],
                rg_fp == row_gate_nodes(nodes, PastaFieldId::Fp),
                rg_fq == row_gate_nodes(nodes, PastaFieldId::Fq),
                sm_fp == scalar_mul_nodes(nodes, PastaFieldId::Fp),
                sm_fq == scalar_mul_nodes(nodes, PastaFieldId::Fq),
                fp_rows <= usize::MAX / 16,
                fq_rows <= usize::MAX / 16,
                inputs_seen(nodes, wit, pis, done),
                pi_listed(fp.tr.public_inputs@, pio_fp, nodes, pis, PastaFieldId::Fp, done),
                pi_listed(fq.tr.public_inputs@, pio_fq, nodes, pis, PastaFieldId::Fq, done),
                field_progress(nodes, wit, pis, mds, done, fp, PastaFieldId::Fp),
                field_progress(nodes, wit, pis, mds, done, fq, PastaFieldId::Fq),
                checks_seen(nodes, wit, pis, mds, done),
                trace_ready(self, mds) ==> {
                    &&& self.spec.public_input_wire_count[0] + self.spec.message_pass_wire_count[0] + rg_fp.len() + 255
                        * sm_fp.len() <= fp_rows
                    &&& self.spec.public_input_wire_count[1] + self.spec.message_pass_wire_count[1] + rg_fq.len() + 255
                        * sm_fq.len() <= fq_rows
                    &&& inputs_assigned(nodes, wit, pis)
                    &&& checks_pass(nodes, wit, pis, mds)
                },
            decreases order@.len() - t,
        {
            let node = order[t];
            let g = match graph_node_weight(&self.spec.graph, node) {
                Some(g) => g,
                None => return Err(TraceError::NoSuchWire),
            };
            let ghost fp_c0 = fp.computed@;
            let ghost fq_c0 = fq.computed@;
            let ghost fp0 = fp;
            let ghost fq0 = fq;
            proof {
                assert(order@[t as int] < n);
                assert(g == self.spec.nodes()[node as int]);
                assert(gate_ok(g, node as int, wc));
                let x = node as int;
                if done.contains(x) {
                    let k = choose|k: int| 0 <= k < t && order@[k] as int == x;
                    assert(order@[k] == order@[t as int]);
                }
                lemma_gate_fields(g, x, wc);
                if g is Output {
                    assert(edged_inputs(g)[0] == output_wire(g));
                }
            }
            match g {
                GateType::FpMessagePass(a, o) => {
                    proof {
                        assert(crate::circuit::out_ok(o[0], node as int, PastaFieldId::Fq, wc));
                        assert(crate::circuit::out_ok(o[1], node as int, PastaFieldId::Fq, wc));
                        lemma_gate_ready(self.spec, order@, t as int, done, fq.computed@, PastaFieldId::Fq);
                        assert(outputs(g)[0] == o[0] && outputs(g)[1] == o[1]);
                        assert(wire_ok(a[0], wc, node as int));
                        if trace_ready(self, mds) {
                            crate::circuit::lemma_index_set_finite(mps, n as int);
                            assert(mps.contains(node as int));
                            lemma_part_smaller(done, mps, node as int);
                            reveal(field_progress);
                        }
                    }
                    gate_message_pass(&fp, &mut fq, a[0], o)?;
                    proof {
                        assert(fq.computed@ == fq_c0.insert(o[0].id as int).insert(o[1].id as int));
                        lemma_grew_by(fq_c0, fq.computed@, outputs(g));
                        lemma_mp_step(self.spec, wit, pis, mds, order@, t as int, done, fp, fq0, fq);
                        lemma_field_other(nodes, wit, pis, mds, done, fp, PastaFieldId::Fp, node as int);
                    }
                },
                _ => {
                    let f = gate_field(&g);
                    let wv = self.witnesses[node];
                    let pv = self.public_inputs[node];
                    match f {
                        PastaFieldId::Fp => {
                            proof {
                                lemma_gate_ready(self.spec, order@, t as int, done, fp.computed@, PastaFieldId::Fp);
                                if trace_ready(self, mds) {
                                    if g is ScalarMul {
                                        lemma_ready_scalar_mul(self.spec, wit, pis, mds, order@, t as int, done, fp, PastaFieldId::Fp);
                                    } else {
                                        lemma_ready_step(self.spec, wit, pis, mds, order@, t as int, done, fp, PastaFieldId::Fp);
                                    }
                                }
                            }
                            process_gate(&mut fp, g, node, wv, pv, Ghost(wc), &mds_fp)?;
                            proof {
                                lemma_field_step(self.spec, wit, pis, mds, order@, t as int, done, fp0, fp, PastaFieldId::Fp);
                                lemma_gate_fields(g, node as int, wc);
                                lemma_field_other(nodes, wit, pis, mds, done, fq, PastaFieldId::Fq, node as int);
                            }
                        },
                        PastaFieldId::Fq => {
                            proof {
                                lemma_gate_ready(self.spec, order@, t as int, done, fq.computed@, PastaFieldId::Fq);
                                if trace_ready(self, mds) {
                                    if g is ScalarMul {
                                        lemma_ready_scalar_mul(self.spec, wit, pis, mds, order@, t as int, done, fq, PastaFieldId::Fq);
                                    } else {
                                        lemma_ready_step(self.spec, wit, pis, mds, order@, t as int, done, fq, PastaFieldId::Fq);
                                    }
                                }
                            }
                            process_gate(&mut fq, g, node, wv, pv, Ghost(wc), &mds_fq)?;
                            proof {
                                lemma_field_step(self.spec, wit, pis, mds, order@, t as int, done, fq0, fq, PastaFieldId::Fq);
                                lemma_gate_fields(g, node as int, wc);
                                lemma_field_other(nodes, wit, pis, mds, done, fp, PastaFieldId::Fp, node as int);
                            }
                        },
                    }
                },
            }
            proof {
                let x = node as int;
                let f = if g is FpMessagePass { PastaFieldId::Fq } else { gate_fid(g) };
                reveal(grew_by);
                assert forall|k: int| 0 <= k < outputs(nodes[x]).len() implies (#[trigger] outputs(nodes[x])[k]).fid == f by {}
                lemma_computed_step(nodes, done, x, fp_c0, fp.computed@, PastaFieldId::Fp);
                lemma_computed_step(nodes, done, x, fq_c0, fq.computed@, PastaFieldId::Fq);
                lemma_outputs_step(nodes, done, x, fp0, fp, PastaFieldId::Fp);
                lemma_outputs_step(nodes, done, x, fq0, fq, PastaFieldId::Fq);
                lemma_count_step(done, pi_fp, x);
                lemma_count_step(done, pi_fq, x);
                lemma_count_step(done, mps, x);
                assert(inputs_seen(nodes, wit, pis, done.insert(x)));
                {
                    lemma_checks_step(nodes, wit, pis, mds, done, x);
                    lemma_pi_step(fp0.tr.public_inputs@, fp.tr.public_inputs@, pio_fp, nodes, pis, PastaFieldId::Fp, done, x);
                    lemma_pi_step(fq0.tr.public_inputs@, fq.tr.public_inputs@, pio_fq, nodes, pis, PastaFieldId::Fq, done, x);
                    if crate::circuit::is_public_input_of(nodes[x], PastaFieldId::Fp) {
                        pio_fp = pio_fp.push(x);
                    }
                    if crate::circuit::is_public_input_of(nodes[x], PastaFieldId::Fq) {
                        pio_fq = pio_fq.push(x);
                    }
                }
                done = done.insert(x);
                assert forall|i: int| #[trigger] done.contains(i) implies exists|k: int| 0 <= k < t + 1 && order@[k] as int == i by {
                    if i != x {
                        let k = choose|k: int| 0 <= k < t && order@[k] as int == i;
                        assert(0 <= k < t + 1 && order@[k] as int == i);
                    } else {
                        assert(order@[t as int] as int == i);
                    }
                }
            }
            t = t + 1;
        }
        proof {
            lemma_all_done(done, pi_fp, n as int);
            lemma_all_done(done, pi_fq, n as int);
            lemma_all_done(done, mps, n as int);
            let all = vstd::set_lib::set_int_range(0, n as int);
            lemma_all_done(done, all, n as int);
            assert forall|i: int| 0 <= i < nodes.len() implies #[trigger] done.contains(i) by {
                assert(all.contains(i));
                assert(done.intersect(all).contains(i));
            }
        }
        let ghost fp_pre = fp;
        let ghost fq_pre = fq;
        proof {
            reveal(cells_distinct);
        }
        append_message_pass_inputs(&mut fp);
        append_message_pass_inputs(&mut fq);
        proof {
            lemma_outputs_match(nodes, done, fp_pre, fp.tr, PastaFieldId::Fp);
            lemma_outputs_match(nodes, done, fq_pre, fq.tr, PastaFieldId::Fq);
            assert forall|i: int| 0 <= i < nodes.len() implies {
                &&& (#[trigger] nodes[i] is Witness ==> wit[i] is Some)
                &&& (nodes[i] is PublicInput ==> pis[i] is Some)
            } by {
                assert(done.contains(i));
            }
            {
                lemma_outputs_evaluate(self.spec, wit, pis, mds, done, fp_pre, fp.tr, PastaFieldId::Fp);
                lemma_outputs_evaluate(self.spec, wit, pis, mds, done, fq_pre, fq.tr, PastaFieldId::Fq);
                lemma_pi_final(fp_pre.tr.public_inputs@, fp.tr, pio_fp, nodes, pis, PastaFieldId::Fp, done, fp_pre.mp_inputs@);
                lemma_pi_final(fq_pre.tr.public_inputs@, fq.tr, pio_fq, nodes, pis, PastaFieldId::Fq, done, fq_pre.mp_inputs@);
                lemma_trace_ready_reached(self, mds, done, fp_pre, fq_pre, fp_rows as int, fq_rows as int);
            }
        }
        Ok((fp.tr, fq.tr))
    }
}

/// Appends the message-pass inputs after the public inputs. When the
/// public-input and message-pass rows fill their areas, the public input of
/// every row is then the entry of the same index.
fn append_message_pass_inputs(st: &mut FieldState)
    requires
        old(st).inv(),
    ensures
        final(st).tr.wf(old(st).fid),
        final(st).tr.rows == old(st).tr.rows,
        final(st).tr.copy_constraints == old(st).tr.copy_constraints,
        final(st).tr.out_wires == old(st).tr.out_wires,
        final(st).tr.ws == old(st).tr.ws,
        final(st).tr.public_inputs@ == old(st).tr.public_inputs@ + old(st).mp_inputs@,
        final(st).tr.public_inputs@.len() == old(st).pi_offset + old(st).mp_offset ==> trace_arith_ok(
            final(st).tr,
            modulus(old(st).fid),
        ),
        copies_agree(final(st).tr),
{
    let ghost start = st.tr.public_inputs@;
    let ghost s0 = *st;
    let mut i: usize = 0;
    while i < st.mp_inputs.len()
        invariant
            i <= st.mp_inputs@.len(),
            st.tr.wf(st.fid),
            forall|k: int| 0 <= k < st.mp_inputs@.len() ==> #[trigger] st.mp_inputs@[k].in_field(st.fid),
            st.fid == s0.fid,
            st.mp_inputs == s0.mp_inputs,
            st.tr.rows == s0.tr.rows,
            st.tr.ws == s0.tr.ws,
            st.tr.qs == s0.tr.qs,
            st.tr.copy_constraints == s0.tr.copy_constraints,
            st.tr.out_wires == s0.tr.out_wires,
            st.tr.public_inputs@ == start + st.mp_inputs@.subrange(0, i as int),
        decreases st.mp_inputs@.len() - i,
    {
        let x = st.mp_inputs[i];
        st.tr.public_inputs.push(x);
        proof {
            assert(st.mp_inputs@.subrange(0, i + 1) == st.mp_inputs@.subrange(0, i as int).push(x));
        }
        i = i + 1;
    }
    proof {
        reveal(copies_ok);
        let cc = st.tr.copy_constraints@;
        assert forall|id: int, j: int, k: int|
            #![trigger cc[id]@[j], cc[id]@[k]]
            0 <= id < cc.len() && 0 <= j < cc[id]@.len() && 0 <= k < cc[id]@.len() implies slot_value(
                st.tr.ws,
                cc[id]@[j],
            ) == slot_value(st.tr.ws, cc[id]@[k]) by {
            assert(slot_value(s0.tr.ws, cc[id]@[j]) == s0.vals@[id].v());
            assert(slot_value(s0.tr.ws, cc[id]@[k]) == s0.vals@[id].v());
        }
        assert(st.mp_inputs@.subrange(0, st.mp_inputs@.len() as int) == st.mp_inputs@);
        if st.tr.public_inputs@.len() == s0.pi_offset + s0.mp_offset {
            let m = modulus(s0.fid);
            let all = st.tr.public_inputs@;
            assert(start.len() == s0.pi_offset);
            reveal(rows_ok);
            assert forall|r: int| 0 <= r < st.tr.rows implies #[trigger] arith_holds_at(
                st.tr,
                r,
                public_term(st.tr, r),
                m,
            ) || failed_assertion(st.tr.ws, st.tr.qs, r) by {
                assert(row_arith(s0.tr.ws, s0.tr.qs, r, pi_term(start, s0.mp_inputs@, s0.pi_offset as int, r), m)
                    || failed_assertion(s0.tr.ws, s0.tr.qs, r));
                if r < start.len() {
                    assert(all[r] == start[r]);
                } else if r < all.len() {
                    assert(all[r] == s0.mp_inputs@[r - start.len()]);
                }
                assert(public_term(st.tr, r) == pi_term(start, s0.mp_inputs@, s0.pi_offset as int, r));
            }
        }
    }
}

} // verus!
