use ark_ec::{AffineRepr, CurveGroup};
use ark_ff::{AdditiveGroup, Field, PrimeField};
use halo::circuit::{CircuitSpec, GateType, SlotId, Wire};
use halo::field::{PastaFE, PastaFieldId};
use halo::sigma::build_sigma;
use halo::trace_builder::{padded_rows, FieldTrace, TraceBuilder, TraceError};

type Fr = ark_pallas::Fr;

fn scalar(n: u64) -> PastaFE {
    PastaFE::from_u64(n, Some(PastaFieldId::Fp))
}

fn mds(fid: PastaFieldId) -> [[PastaFE; 3]; 3] {
    let c = |n: u64| PastaFE::from_u64(n, Some(fid));
    [[c(2), c(1), c(1)], [c(1), c(2), c(1)], [c(1), c(1), c(3)]]
}

fn trace(tb: TraceBuilder) -> Result<(FieldTrace, FieldTrace), TraceError> {
    tb.trace(mds(PastaFieldId::Fp), mds(PastaFieldId::Fq))
}

fn cell(t: &FieldTrace, s: SlotId) -> PastaFE {
    t.ws.data[(s.column() - 1) * t.rows + (s.row() - 1)]
}

fn to_fr(x: &PastaFE) -> Fr {
    if x.is_neg_one {
        -Fr::ONE
    } else {
        Fr::new(ark_ff::BigInt(x.inner))
    }
}

/// Every cell holds the value of the cell its copy constraint points to.
fn copy_constraints_hold(t: &FieldTrace) -> bool {
    let s = build_sigma(&t.copy_constraints, t.rows, PastaFieldId::Fp);
    (0..t.rows * 8).all(|j| {
        let id = SlotId::from_usize(j, t.rows);
        cell(t, id).inner == cell(t, s.sigma[j]).inner
    })
}

/// Each output gate of field `f` wrote, in its slot, the value held in every
/// cell recorded for its wire.
fn outputs_match_cells(t: &FieldTrace, circuit: &CircuitSpec, f: PastaFieldId) -> bool {
    circuit.graph.node_weights().all(|g| match g {
        GateType::Output([w], (), k) if w.fid == f => {
            t.copy_constraints[w.id].iter().all(|s| cell(t, *s).inner == t.out_wires[*k].inner)
        }
        _ => true,
    })
}

/// Every row satisfies the arithmetic gate with the public input of its index.
fn arithmetic_rows_hold(t: &FieldTrace) -> bool {
    (0..t.rows).all(|r| {
        let q = |c: usize| to_fr(&t.qs.data[c * t.rows + r]);
        let w = |c: usize| to_fr(&t.ws.data[c * t.rows + r]);
        let pi = if r < t.public_inputs.len() { to_fr(&t.public_inputs[r]) } else { Fr::ZERO };
        q(0) * w(0) + q(1) * w(1) + q(2) * w(2) + q(3) * w(0) * w(1) + q(4) + pi == Fr::ZERO
    })
}

#[test]
fn test_circuit_eval1() {
    let mut circuit = CircuitSpec::new();
    let x7 = circuit.fp_public_input();
    let x2 = circuit.fp_witness();
    let x3 = circuit.fp_witness();
    let x5 = circuit.fp_witness();
    let c11 = circuit.constant(scalar(11));
    let a5 = circuit.add(x2, x3);
    let mul25 = circuit.mul(a5, x5);
    let mul175 = circuit.mul(x7, mul25);
    let add186 = circuit.add(c11, mul175);
    circuit.output_gate(add186);

    let mut trace_builder = TraceBuilder::new(circuit.clone());
    trace_builder.witness(x2, scalar(2)).unwrap();
    trace_builder.witness(x3, scalar(3)).unwrap();
    trace_builder.witness(x5, scalar(5)).unwrap();
    trace_builder.public_input(x7, scalar(7)).unwrap();
    let (fp_trace, fq_trace) = trace(trace_builder).unwrap();
    assert!(outputs_match_cells(&fp_trace, &circuit, PastaFieldId::Fp));
    // the output wire has cells: those of the last addition
    assert!(!fp_trace.copy_constraints[add186.id].is_empty());

    assert!(copy_constraints_hold(&fp_trace));
    assert_eq!(fp_trace.out_wires.len(), 1);
    assert_eq!(fp_trace.out_wires[0].inner, scalar(186).inner);
    assert_eq!(fp_trace.public_inputs.len(), 1);
    assert!(arithmetic_rows_hold(&fp_trace));
    assert!(arithmetic_rows_hold_fq(&fq_trace));
}

#[test]
fn test_circuit_eval2() {
    let mut circuit = CircuitSpec::new();
    let x2 = circuit.fp_witness();
    let x7 = circuit.fp_witness();
    let c3 = circuit.constant(scalar(3));
    let c5 = circuit.constant(scalar(5));
    let c47 = circuit.constant(scalar(47));
    let mul4 = circuit.mul(x2, x2);
    let mul35 = circuit.mul(x7, c5);
    let mul12 = circuit.mul(c3, mul4);
    let add47 = circuit.add(mul12, mul35);
    circuit.assert_eq_gate(add47, c47);
    circuit.output_gate(add47);

    let mut trace_builder = TraceBuilder::new(circuit);
    trace_builder.witness(x2, scalar(2)).unwrap();
    trace_builder.witness(x7, scalar(7)).unwrap();
    let (fp_trace, fq_trace) = trace(trace_builder).unwrap();

    assert!(copy_constraints_hold(&fp_trace));
    assert_eq!(fp_trace.out_wires.len(), 1);
    assert_eq!(fp_trace.out_wires[0].inner, scalar(47).inner);
    assert!(arithmetic_rows_hold(&fp_trace));
    assert!(arithmetic_rows_hold_fq(&fq_trace));
}

#[test]
fn test_circuit_eval_assert_eq() {
    let mut circuit = CircuitSpec::new();
    let x = circuit.fp_witness();
    let y = circuit.fp_witness();
    circuit.assert_eq_gate(x, y);

    let mut trace_builder = TraceBuilder::new(circuit);
    trace_builder.witness(x, scalar(3)).unwrap();
    trace_builder.witness(y, scalar(3)).unwrap();
    let (fp_trace, fq_trace) = trace(trace_builder).unwrap();

    assert!(copy_constraints_hold(&fp_trace));
    assert!(arithmetic_rows_hold(&fp_trace));
    assert!(arithmetic_rows_hold_fq(&fq_trace));
}

#[test]
fn test_circuit_eval_assert_neq() {
    let mut circuit = CircuitSpec::new();
    let x = circuit.fp_witness();
    let xx = circuit.mul(x, x);
    let y = circuit.fp_witness();
    circuit.assert_eq_gate(xx, y);

    let mut trace_builder = TraceBuilder::new(circuit);
    trace_builder.witness(x, scalar(3)).unwrap();
    trace_builder.witness(y, scalar(5)).unwrap();
    let (fp_trace, fq_trace) = trace(trace_builder).unwrap();

    assert!(!arithmetic_rows_hold(&fp_trace));
    assert!(arithmetic_rows_hold_fq(&fq_trace));
}

#[test]
fn test_poseidon() {
    let mut circuit = CircuitSpec::new();
    let round_constants = |k: u64| -> [PastaFE; 15] { std::array::from_fn(|i| scalar(k * 15 + i as u64)) };
    let x1 = circuit.fp_witness();
    let x2 = circuit.fp_witness();
    let x3 = circuit.fp_witness();
    let [p0, p1, p2] = circuit.poseidon([x1, x2, x3], round_constants(0));
    let [p3, p4, p5] = circuit.poseidon([p0, p1, p2], round_constants(1));
    let [p6, p7, p8] = circuit.poseidon_finish([p3, p4, p5]);

    let xa11 = circuit.fp_witness();
    let xa12 = circuit.fp_witness();
    let a1 = circuit.add(xa11, xa12);
    let xa21 = circuit.fp_witness();
    let a2 = circuit.add(a1, xa21);
    let xa31 = circuit.fp_witness();
    let a3 = circuit.add(a2, xa31);

    let m1 = circuit.mul(p0, p6);
    let m2 = circuit.mul(m1, p7);
    let m3 = circuit.mul(m2, p8);
    let m4 = circuit.mul(m3, a3);
    circuit.output_gate(m4);

    let topo_order = petgraph::algo::toposort(&circuit.graph, None).unwrap();
    let mut seen = false;
    for node_idx in topo_order {
        match circuit.graph[node_idx] {
            GateType::Poseidon(..) => {
                seen = !seen;
            }
            _ => assert!(!seen),
        }
    }

    let mut trace_builder = TraceBuilder::new(circuit);
    for (w, v) in [(x1, 1), (x2, 2), (x3, 3), (xa11, 4), (xa12, 5), (xa21, 6), (xa31, 7)] {
        trace_builder.witness(w, scalar(v)).unwrap();
    }
    let (fp_trace, fq_trace) = trace(trace_builder).unwrap();
    assert!(copy_constraints_hold(&fp_trace));
    assert!(arithmetic_rows_hold(&fp_trace));
    assert!(arithmetic_rows_hold_fq(&fq_trace));
}

#[test]
fn trace_rows_are_padded_powers_of_two() {
    assert_eq!(padded_rows(0), Some(4));
    assert_eq!(padded_rows(4), Some(4));
    assert_eq!(padded_rows(5), Some(8));
    assert_eq!(padded_rows(1000), Some(1024));
    assert_eq!(padded_rows(usize::MAX), None);
    let circuit = CircuitSpec::new();
    let (fp, fq) = trace(TraceBuilder::new(circuit)).unwrap();
    assert_eq!(fp.rows, 4);
    assert_eq!(fq.rows, 4);
    assert_eq!(fp.ws.data.len(), 16 * 4);
    assert_eq!(fp.rs.data.len(), 15 * 4);
    assert_eq!(fp.qs.data.len(), 9 * 4);
}

#[test]
fn witness_assignment_errors() {
    let mut circuit = CircuitSpec::new();
    let x = circuit.fp_witness();
    let p = circuit.fp_public_input();
    let y = circuit.add(x, p);
    let mut tb = TraceBuilder::new(circuit);
    assert_eq!(tb.witness(y, scalar(1)), Err(TraceError::NotAWitnessWire));
    assert_eq!(tb.public_input(x, scalar(1)), Err(TraceError::NotAPublicInputWire));
    let ghost_wire = Wire { id: 0, node_idx: 1000, output_id: 0, fid: PastaFieldId::Fp };
    assert_eq!(tb.witness(ghost_wire, scalar(1)), Err(TraceError::NoSuchWire));
    assert_eq!(tb.witness(x, scalar(1)), Ok(()));
    assert_eq!(tb.witness(x, scalar(2)), Err(TraceError::AlreadyAssigned));
    assert_eq!(tb.witness_counts, [1, 0]);
}

#[test]
fn missing_values_are_reported() {
    let mut circuit = CircuitSpec::new();
    let x = circuit.fp_witness();
    let p = circuit.fp_public_input();
    circuit.add(x, p);
    let tb = TraceBuilder::new(circuit.clone());
    assert!(matches!(trace(tb), Err(TraceError::WitnessCount)));
    let mut tb = TraceBuilder::new(circuit);
    tb.witness(x, scalar(1)).unwrap();
    assert!(matches!(trace(tb), Err(TraceError::PublicInputCount)));
}

#[test]
fn fq_witness_without_value_is_unassigned() {
    let mut circuit = CircuitSpec::new();
    let x = circuit.fq_witness();
    circuit.output_gate(x);
    assert!(matches!(trace(TraceBuilder::new(circuit)), Err(TraceError::Unassigned)));
}

#[test]
fn inverting_zero_fails() {
    let mut circuit = CircuitSpec::new();
    let x = circuit.fp_witness();
    let y = circuit.inv(x);
    circuit.output_gate(y);
    let mut tb = TraceBuilder::new(circuit.clone());
    tb.witness(x, scalar(0)).unwrap();
    assert!(matches!(trace(tb), Err(TraceError::NoInverse)));
    let mut tb = TraceBuilder::new(circuit);
    tb.witness(x, scalar(4)).unwrap();
    let (fp, _) = trace(tb).unwrap();
    assert_eq!(to_fr(&fp.out_wires[0]), Fr::from(4u64).inverse().unwrap());
    assert!(arithmetic_rows_hold(&fp));
}

#[test]
fn negation_gate() {
    let mut circuit = CircuitSpec::new();
    let x = circuit.fp_witness();
    let y = circuit.neg_gate(x);
    circuit.output_gate(y);
    let mut tb = TraceBuilder::new(circuit);
    tb.witness(x, scalar(4)).unwrap();
    let (fp, _) = trace(tb).unwrap();
    assert_eq!(to_fr(&fp.out_wires[0]), -Fr::from(4u64));
    assert!(arithmetic_rows_hold(&fp));
    assert!(copy_constraints_hold(&fp));
}

#[test]
fn message_pass_splits_the_value() {
    let mut circuit = CircuitSpec::new();
    let x = circuit.fp_witness();
    let (h, l) = circuit.fp_message_pass(x);
    circuit.output_gate(h);
    circuit.output_gate(l);
    let mut tb = TraceBuilder::new(circuit);
    tb.witness(x, scalar(21)).unwrap();
    let (_, fq) = trace(tb).unwrap();
    assert_eq!(fq.out_wires[0].inner, [10, 0, 0, 0]);
    assert_eq!(fq.out_wires[1].inner, [1, 0, 0, 0]);
    assert_eq!(fq.out_wires[0].fid, Some(PastaFieldId::Fq));
    // the two message-pass rows come with public inputs -10 and -1
    assert_eq!(fq.public_inputs.len(), 2);
    assert!(arithmetic_rows_hold_fq(&fq));
}

fn arithmetic_rows_hold_fq(t: &FieldTrace) -> bool {
    let to = |x: &PastaFE| -> ark_pallas::Fq {
        if x.is_neg_one {
            -ark_pallas::Fq::ONE
        } else {
            ark_pallas::Fq::new(ark_ff::BigInt(x.inner))
        }
    };
    (0..t.rows).all(|r| {
        let q = |c: usize| to(&t.qs.data[c * t.rows + r]);
        let w = |c: usize| to(&t.ws.data[c * t.rows + r]);
        let pi = if r < t.public_inputs.len() { to(&t.public_inputs[r]) } else { ark_pallas::Fq::ZERO };
        q(0) * w(0) + q(1) * w(1) + q(2) * w(2) + q(3) * w(0) * w(1) + q(4) + pi == ark_pallas::Fq::ZERO
    })
}

#[test]
fn scalar_mul_gate_on_vesta() {
    let g = ark_vesta::Affine::generator();
    let (gx, gy) = g.xy().unwrap();
    let mut circuit = CircuitSpec::new();
    let xg = circuit.fp_witness();
    let yg = circuit.fp_witness();
    let h = circuit.fp_witness();
    let l = circuit.fp_witness();
    let (ox, oy) = circuit.scalar_mul((h, l), (xg, yg));
    circuit.output_gate(ox);
    circuit.output_gate(oy);
    let mut tb = TraceBuilder::new(circuit);
    tb.witness(h, scalar(3)).unwrap();
    tb.witness(l, scalar(1)).unwrap();
    tb.witness(xg, PastaFE::new(gx.into_bigint().0, Some(PastaFieldId::Fp))).unwrap();
    tb.witness(yg, PastaFE::new(gy.into_bigint().0, Some(PastaFieldId::Fp))).unwrap();
    let (fp, _) = trace(tb).unwrap();
    // [2h + l] G = 7 G
    let seven_g = (g * ark_vesta::Fr::from(7u64)).into_affine();
    let (ex, ey) = seven_g.xy().unwrap();
    assert_eq!(fp.out_wires[0].inner, ex.into_bigint().0);
    assert_eq!(fp.out_wires[1].inner, ey.into_bigint().0);
    assert_eq!(fp.rows, 512);
    assert!(arithmetic_rows_hold(&fp));
}

#[test]
fn scalar_mul_reads_its_scalar_whatever_the_wire_order() {
    let g = ark_vesta::Affine::generator();
    let (gx, gy) = g.xy().unwrap();
    let mut circuit = CircuitSpec::new();
    let h = circuit.fp_witness();
    let l = circuit.fp_witness();
    let xg = circuit.fp_witness();
    let yg = circuit.fp_witness();
    let (ox, oy) = circuit.scalar_mul((h, l), (xg, yg));
    circuit.output_gate(ox);
    circuit.output_gate(oy);
    let mut tb = TraceBuilder::new(circuit);
    tb.witness(h, scalar(3)).unwrap();
    tb.witness(l, scalar(1)).unwrap();
    tb.witness(xg, PastaFE::new(gx.into_bigint().0, Some(PastaFieldId::Fp))).unwrap();
    tb.witness(yg, PastaFE::new(gy.into_bigint().0, Some(PastaFieldId::Fp))).unwrap();
    let (fp, _) = trace(tb).unwrap();
    // the scalar wires come in by edges, so they are evaluated first: [7] G
    let seven_g = (g * ark_vesta::Fr::from(7u64)).into_affine();
    let (ex, ey) = seven_g.xy().unwrap();
    assert_eq!(fp.out_wires[0].inner, ex.into_bigint().0);
    assert_eq!(fp.out_wires[1].inner, ey.into_bigint().0);
}

#[test]
fn scalar_mul_refuses_wide_scalars() {
    let mut circuit = CircuitSpec::new();
    let xg = circuit.fp_witness();
    let yg = circuit.fp_witness();
    let h = circuit.fp_witness();
    let l = circuit.fp_witness();
    circuit.scalar_mul((h, l), (xg, yg));
    let mut tb = TraceBuilder::new(circuit);
    tb.witness(h, PastaFE::new([0, 0, 0, 1 << 62], Some(PastaFieldId::Fp))).unwrap();
    tb.witness(l, scalar(0)).unwrap();
    tb.witness(xg, scalar(0)).unwrap();
    tb.witness(yg, scalar(0)).unwrap();
    assert!(matches!(trace(tb), Err(TraceError::ScalarTooLarge)));
}

#[test]
fn adding_points_off_the_curve_fails() {
    let mut circuit = CircuitSpec::new();
    let xp = circuit.fp_witness();
    let yp = circuit.fp_witness();
    let xq = circuit.fp_witness();
    let yq = circuit.fp_witness();
    let (rx, _) = circuit.add_points((xp, yp), (xq, yq));
    circuit.output_gate(rx);
    let mut tb = TraceBuilder::new(circuit);
    for w in [xp, yp, xq, yq] {
        tb.witness(w, scalar(1)).unwrap();
    }
    assert!(matches!(trace(tb), Err(TraceError::NotOnCurve)));
}

#[test]
fn adding_curve_points_in_the_circuit() {
    let g = ark_vesta::Affine::generator();
    let h = (g + g).into_affine();
    let s = (g + h).into_affine();
    let c = |x: ark_vesta::Fq| PastaFE::new(x.into_bigint().0, Some(PastaFieldId::Fp));
    let mut circuit = CircuitSpec::new();
    let xp = circuit.fp_witness();
    let yp = circuit.fp_witness();
    let xq = circuit.fp_witness();
    let yq = circuit.fp_witness();
    let (rx, ry) = circuit.add_points((xp, yp), (xq, yq));
    circuit.output_gate(rx);
    circuit.output_gate(ry);
    let mut tb = TraceBuilder::new(circuit);
    tb.witness(xp, c(g.xy().unwrap().0)).unwrap();
    tb.witness(yp, c(g.xy().unwrap().1)).unwrap();
    tb.witness(xq, c(h.xy().unwrap().0)).unwrap();
    tb.witness(yq, c(h.xy().unwrap().1)).unwrap();
    let (fp, _) = trace(tb).unwrap();
    assert_eq!(fp.out_wires[0].inner, c(s.xy().unwrap().0).inner);
    assert_eq!(fp.out_wires[1].inner, c(s.xy().unwrap().1).inner);
    assert!(copy_constraints_hold(&fp));
    assert!(arithmetic_rows_hold(&fp));
    // the row of the addition satisfies the complete addition gate
    let row = (0..fp.rows).find(|r| !fp.qs.data[6 * fp.rows + r].is_zero()).unwrap();
    let w: [PastaFE; 16] = std::array::from_fn(|k| fp.ws.data[k * fp.rows + row]);
    assert!(halo::constraints::affine_add_constraints_generic(w).is_zero());
}

#[test]
fn public_and_message_pass_rows_line_up() {
    let mut circuit = CircuitSpec::new();
    let p = circuit.fq_public_input();
    let x = circuit.fp_witness();
    let (h, l) = circuit.fp_message_pass(x);
    let s = circuit.add(h, l);
    let t = circuit.add(s, p);
    circuit.output_gate(t);
    let mut tb = TraceBuilder::new(circuit);
    tb.witness(x, scalar(9)).unwrap();
    tb.public_input(p, PastaFE::from_u64(5, Some(PastaFieldId::Fq))).unwrap();
    let (_, fq) = trace(tb).unwrap();
    // one public input, then the two message-pass inputs
    assert_eq!(fq.public_inputs.len(), 3);
    // 9 = 2 * 4 + 1, and 4 + 1 + 5 = 10
    assert_eq!(fq.out_wires[0].inner, [10, 0, 0, 0]);
    assert!(arithmetic_rows_hold_fq(&fq));
    assert!(copy_constraints_hold(&fq));
}

/// The outputs of a gate, as the circuit lists them.
fn gate_outputs(g: &GateType) -> Vec<Wire> {
    match g {
        GateType::Witness(_, o) | GateType::PublicInput(_, o) | GateType::Constant(_, o, _) => o.to_vec(),
        GateType::Invert(_, o) | GateType::Negate(_, o) | GateType::Add(_, o) | GateType::Multiply(_, o) => o.to_vec(),
        GateType::ScalarMul(_, o) | GateType::FpMessagePass(_, o) | GateType::AffineAdd(_, o) => o.to_vec(),
        GateType::PoseidonEnd(_, o) | GateType::Poseidon(_, o, _) => o.to_vec(),
        GateType::Output(..) | GateType::AssertEq(..) => vec![],
    }
}

#[test]
fn builders_keep_counters_and_wiring_exact() {
    let mut circuit = CircuitSpec::new();
    let p = circuit.fp_public_input();
    let q = circuit.fq_public_input();
    let x = circuit.fp_witness();
    let s = circuit.add(p, x);
    let m = circuit.mul(s, s);
    let n = circuit.neg_gate(m);
    let (h, l) = circuit.fp_message_pass(n);
    let t = circuit.add(h, q);
    circuit.assert_eq_gate(t, l);
    circuit.output_gate(n);

    let nodes: Vec<GateType> = circuit.graph.node_weights().copied().collect();
    let public_inputs = |f: PastaFieldId| {
        nodes.iter().filter(|g| matches!(g, GateType::PublicInput(_, o) if o[0].fid == f)).count()
    };
    let message_passes = nodes.iter().filter(|g| matches!(g, GateType::FpMessagePass(..))).count();
    assert_eq!(circuit.public_input_wire_count, [public_inputs(PastaFieldId::Fp), public_inputs(PastaFieldId::Fq)]);
    assert_eq!(circuit.message_pass_wire_count, [0, 2 * message_passes]);

    // every output carries its own index, and no two outputs of one field share an id
    let mut seen = std::collections::HashSet::new();
    for g in &nodes {
        for (k, w) in gate_outputs(g).iter().enumerate() {
            assert_eq!(w.output_id as usize, k);
            assert!(seen.insert((w.fid, w.id)));
        }
    }
    // the inputs of the addition come in by edges from the gates that made them
    let add_node = petgraph::graph::NodeIndex::new(s.node_idx);
    assert!(circuit.graph.find_edge(petgraph::graph::NodeIndex::new(p.node_idx), add_node).is_some());
    assert!(circuit.graph.find_edge(petgraph::graph::NodeIndex::new(x.node_idx), add_node).is_some());
}

#[test]
fn new_circuit_holds_the_unit_constants() {
    let circuit = CircuitSpec::new();
    let nodes: Vec<GateType> = circuit.graph.node_weights().copied().collect();
    assert_eq!(nodes.len(), 4);
    let expect = [
        (circuit.zero[0], 0u64, PastaFieldId::Fp),
        (circuit.one[0], 1, PastaFieldId::Fp),
        (circuit.zero[1], 0, PastaFieldId::Fq),
        (circuit.one[1], 1, PastaFieldId::Fq),
    ];
    for (i, (w, v, f)) in expect.iter().enumerate() {
        match nodes[i] {
            GateType::Constant((), [o], c) => {
                assert!(o == *w);
                assert_eq!(c.inner, [*v, 0, 0, 0]);
                assert_eq!(c.fid, Some(*f));
                assert_eq!(o.node_idx, i);
            }
            _ => panic!("node {i} is not a constant"),
        }
    }
}

#[test]
fn other_wires_of_input_nodes_are_counted_and_never_read() {
    let mut circuit = CircuitSpec::new();
    let x = circuit.fp_witness();
    let p = circuit.fp_public_input();
    let y = circuit.add(x, p);
    circuit.output_gate(y);
    let mut tb = TraceBuilder::new(circuit);
    let other_x = Wire { id: x.id + 7, ..x };
    let other_p = Wire { id: p.id + 7, ..p };
    assert_eq!(tb.witness(other_x, scalar(1)), Ok(()));
    assert_eq!(tb.witness(other_x, scalar(2)), Err(TraceError::AlreadyAssigned));
    assert_eq!(tb.public_input(other_p, scalar(3)), Ok(()));
    assert_eq!(tb.witness_counts, [1, 0]);
    assert_eq!(tb.public_input_counts, [1, 0]);
    assert!(tb.witnesses.iter().all(|v| v.is_none()));
    // the counts match the circuit's, but the witness gate's own wire has no value
    assert!(matches!(trace(tb), Err(TraceError::Unassigned)));
}
