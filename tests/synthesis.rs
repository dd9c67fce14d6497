use std::collections::HashMap;

use lut_synth::circuit::{Circuit, GateType, LogicGate};
use lut_synth::deps::{parse_deps, Binding};
use lut_synth::lut::{bits_for_rows, LUT};
use lut_synth::text::ParseError;
use lut_synth::unify::{unify, UnifyError, WireAlloc};

fn simulate(gates: &[LogicGate], mut values: HashMap<usize, bool>) -> HashMap<usize, bool> {
    for g in gates {
        let v = match g.gate_type {
            GateType::AND => g.inputs.iter().all(|w| values[w]),
            GateType::OR => g.inputs.iter().any(|w| values[w]),
            GateType::NOT => !values[&g.inputs[0]],
            GateType::ZERO => false,
        };
        values.insert(g.output, v);
    }
    values
}

fn local_output(c: &Circuit, bits: &[bool]) -> bool {
    let values: HashMap<usize, bool> = bits.iter().enumerate().map(|(i, b)| (i, *b)).collect();
    let out = c.gates.last().unwrap().output;
    simulate(&c.gates, values)[&out]
}

fn assignment(row: usize, n: usize) -> Vec<bool> {
    (0..n).map(|j| (row >> (n - 1 - j)) & 1 == 1).collect()
}

#[test]
fn xor_table_simulates() {
    let lut = LUT::new("2 4 0 1 1 0").unwrap();
    assert_eq!(lut.table, vec![0, 1, 1, 0]);
    assert_eq!(lut.inputs, vec![0, 1]);
    let c = lut.to_circuit();
    assert_eq!(c.id, 2);
    let outs: Vec<bool> = (0..4).map(|r| local_output(&c, &assignment(r, 2))).collect();
    assert_eq!(outs, vec![false, true, true, false]);
}

#[test]
fn xor_table_gate_layout() {
    let c = LUT::new("2 4 0 1 1 0").unwrap().to_circuit();
    let kinds: Vec<GateType> = c.gates.iter().map(|g| g.gate_type).collect();
    assert_eq!(kinds, vec![GateType::NOT, GateType::AND, GateType::NOT, GateType::AND, GateType::OR]);
    assert_eq!(c.gates[0].inputs, vec![0]);
    assert_eq!(c.gates[1].inputs, vec![2, 1]);
    assert_eq!(c.gates[2].inputs, vec![1]);
    assert_eq!(c.gates[3].inputs, vec![0, 4]);
    assert_eq!(c.gates[4].inputs, vec![3, 5]);
    let outs: Vec<usize> = c.gates.iter().map(|g| g.output).collect();
    assert_eq!(outs, vec![2, 3, 4, 5, 6]);
}

#[test]
fn bits_are_reversed_after_reading() {
    let lut = LUT::new("3 4 1 1 0 0").unwrap();
    assert_eq!(lut.table, vec![0, 0, 1, 1]);
    let c = lut.to_circuit();
    let outs: Vec<bool> = (0..4).map(|r| local_output(&c, &assignment(r, 2))).collect();
    assert_eq!(outs, vec![false, false, true, true]);
}

#[test]
fn every_table_of_three_inputs_simulates() {
    for code in 0u32..256 {
        let bits: Vec<String> = (0..8).map(|k| ((code >> k) & 1).to_string()).collect();
        let line = format!("9 8 {}", bits.join(" "));
        let lut = LUT::new(&line).unwrap();
        let c = lut.to_circuit();
        for row in 0..8 {
            let expect = lut.table[row] == 1;
            assert_eq!(local_output(&c, &assignment(row, 3)), expect, "table {} row {}", code, row);
        }
    }
}

#[test]
fn all_zero_table_gets_constant_zero() {
    let c = LUT::new("7 2 0 0").unwrap().to_circuit();
    assert_eq!(c.gates.len(), 1);
    assert_eq!(c.gates[0].gate_type, GateType::ZERO);
    assert!(c.gates[0].inputs.is_empty());
    assert_eq!(c.gates[0].output, 1);
    assert!(!local_output(&c, &[false]));
    assert!(!local_output(&c, &[true]));
}

#[test]
fn empty_table_gets_constant_zero() {
    let c = LUT::new("7 0").unwrap().to_circuit();
    assert!(c.inputs.is_empty());
    assert_eq!(c.gates.len(), 1);
    assert_eq!(c.gates[0].gate_type, GateType::ZERO);
    assert_eq!(c.gates[0].output, 0);
}

#[test]
fn single_row_true_table_without_inputs() {
    let c = LUT::new("7 1 1").unwrap().to_circuit();
    let kinds: Vec<GateType> = c.gates.iter().map(|g| g.gate_type).collect();
    assert_eq!(kinds, vec![GateType::ZERO, GateType::NOT, GateType::OR]);
    assert!(local_output(&c, &[]));
}

#[test]
fn bit_width_rounds_up() {
    let expect = [(0, 0), (1, 0), (2, 1), (3, 2), (4, 2), (5, 3), (8, 3), (9, 4)];
    for (w, k) in expect {
        assert_eq!(bits_for_rows(w), k);
    }
    assert_eq!(bits_for_rows(usize::MAX), 64);
}

#[test]
fn three_rows_use_two_inputs() {
    let lut = LUT::new("4 3 1 0 1").unwrap();
    assert_eq!(lut.inputs, vec![0, 1]);
    assert_eq!(lut.table, vec![1, 0, 1]);
    let c = lut.to_circuit();
    let outs: Vec<bool> = (0..4).map(|r| local_output(&c, &assignment(r, 2))).collect();
    assert_eq!(outs, vec![true, false, true, false]);
}

#[test]
fn table_line_errors() {
    assert_eq!(LUT::new("5").unwrap_err(), ParseError::MissingField);
    assert_eq!(LUT::new("").unwrap_err(), ParseError::MissingField);
    assert_eq!(LUT::new("x 2 0 1").unwrap_err(), ParseError::BadNumber);
    assert_eq!(LUT::new("5 -2 0 1").unwrap_err(), ParseError::BadNumber);
    assert_eq!(LUT::new("99999999999999999999999 2 0 1").unwrap_err(), ParseError::BadNumber);
    assert_eq!(LUT::new("5 2 0 2").unwrap_err(), ParseError::BadBit);
    assert_eq!(LUT::new("5 2 0 10").unwrap_err(), ParseError::BadBit);
    assert_eq!(LUT::new("5 4 0 1").unwrap_err(), ParseError::BitCount);
    assert_eq!(LUT::new("5 1 0 1").unwrap_err(), ParseError::BitCount);
}

#[test]
fn large_number_still_parses() {
    let lut = LUT::new("18446744073709551615 1 1").unwrap();
    assert_eq!(lut.id, usize::MAX);
}

#[test]
fn dependency_tokens() {
    let bs = parse_deps("I0  C3\tI12 x7").unwrap();
    assert_eq!(
        bs,
        vec![
            Binding::PrimaryInput(0),
            Binding::CircuitOutput(3),
            Binding::PrimaryInput(12),
            Binding::CircuitOutput(7),
        ]
    );
    assert!(parse_deps("").unwrap().is_empty());
    assert_eq!(parse_deps("I").unwrap_err(), ParseError::BadReference);
    assert_eq!(parse_deps("Ix").unwrap_err(), ParseError::BadReference);
    assert_eq!(parse_deps("I1 7").unwrap_err(), ParseError::BadReference);
}

#[test]
fn wire_allocator_counts_up() {
    let mut a = WireAlloc::new(10);
    assert_eq!(a.fresh(), 10);
    assert_eq!(a.fresh(), 11);
    assert_eq!(a.peek(), 12);
}

fn xor_and_bindings() -> (Vec<Circuit>, Vec<Vec<Binding>>, Vec<usize>) {
    let c1 = LUT::new("5 4 0 1 1 0").unwrap().to_circuit();
    let c2 = LUT::new("6 4 1 0 0 0").unwrap().to_circuit();
    let b1 = vec![Binding::PrimaryInput(0), Binding::PrimaryInput(1)];
    let b2 = vec![Binding::CircuitOutput(5), Binding::PrimaryInput(2)];
    (vec![c1, c2], vec![b1, b2], vec![0, 1, 2])
}

#[test]
fn linked_output_keeps_circuit_id() {
    let (cs, bs, prims) = xor_and_bindings();
    let f = unify(&cs, &bs, &prims).unwrap();
    assert_eq!(f.id, 0);
    assert_eq!(f.inputs, vec![0, 1, 2]);
    let first = cs[0].gates.len();
    let second: Vec<&LogicGate> = f.gates[first..].iter().collect();
    assert!(second.iter().any(|g| g.inputs.contains(&5)));
    assert_eq!(f.gates[first - 1].output, 5);
    assert_eq!(f.gates.last().unwrap().output, 6);
    let fresh = f.gates.iter().map(|g| g.output).filter(|w| *w != 5 && *w != 6).min().unwrap();
    assert_eq!(fresh, 7);
}

#[test]
fn merged_network_simulates() {
    let (cs, bs, prims) = xor_and_bindings();
    let f = unify(&cs, &bs, &prims).unwrap();
    for row in 0..8usize {
        let a = assignment(row, 3);
        let values: HashMap<usize, bool> = (0..3).map(|k| (k, a[k])).collect();
        let out = simulate(&f.gates, values);
        let x = a[0] != a[1];
        assert_eq!(out[&5], x);
        assert_eq!(out[&6], x && a[2]);
    }
}

#[test]
fn merged_outputs_are_unique() {
    let (cs, bs, prims) = xor_and_bindings();
    let f = unify(&cs, &bs, &prims).unwrap();
    let mut seen = std::collections::HashSet::new();
    for g in &f.gates {
        assert!(seen.insert(g.output), "wire {} driven twice", g.output);
    }
}

#[test]
fn fresh_ids_above_all_ids() {
    let (cs, bs, prims) = xor_and_bindings();
    let f = unify(&cs, &bs, &prims).unwrap();
    let fresh: Vec<usize> = f.gates.iter().map(|g| g.output).filter(|w| *w != 5 && *w != 6).collect();
    assert!(fresh.iter().all(|w| *w > 6));
    assert!(fresh.windows(2).all(|p| p[0] < p[1]));
}

#[test]
fn single_lut_flattening_matches_local_circuit() {
    let lut = LUT::new("8 8 0 1 1 0 1 0 0 1").unwrap();
    let c = lut.to_circuit();
    let b = vec![Binding::PrimaryInput(3), Binding::PrimaryInput(1), Binding::PrimaryInput(2)];
    let f = unify(&vec![LUT::new("8 8 0 1 1 0 1 0 0 1").unwrap().to_circuit()], &vec![b], &vec![3, 1, 2]).unwrap();
    for row in 0..8usize {
        let a = assignment(row, 3);
        let values: HashMap<usize, bool> = [(3, a[0]), (1, a[1]), (2, a[2])].into_iter().collect();
        assert_eq!(simulate(&f.gates, values)[&8], local_output(&c, &a));
    }
}

#[test]
fn unify_errors() {
    let (cs, bs, prims) = xor_and_bindings();
    assert_eq!(unify(&cs, &bs[..1].to_vec(), &prims).unwrap_err(), UnifyError::CountMismatch);
    let short = vec![bs[0].clone(), vec![Binding::CircuitOutput(5)]];
    assert_eq!(unify(&cs, &short, &prims).unwrap_err(), UnifyError::ArityMismatch);
    assert_eq!(unify(&cs, &bs, &vec![0, 1, 2, 5]).unwrap_err(), UnifyError::IdClash);
    assert_eq!(unify(&cs, &bs, &vec![0, 1, 2, 1]).unwrap_err(), UnifyError::IdClash);
    let unknown = vec![bs[0].clone(), vec![Binding::CircuitOutput(4), Binding::PrimaryInput(2)]];
    assert_eq!(unify(&cs, &unknown, &prims).unwrap_err(), UnifyError::UnknownCircuit);
    assert_eq!(unify(&cs, &bs, &vec![0, 1, 2, usize::MAX]).unwrap_err(), UnifyError::WireSpaceExhausted);
    let bad = Circuit { id: 3, inputs: vec![0], gates: vec![LogicGate::new(GateType::NOT, vec![1], 1)] };
    assert_eq!(unify(&vec![bad], &vec![vec![Binding::PrimaryInput(0)]], &vec![0]).unwrap_err(), UnifyError::MalformedCircuit);
    let empty = Circuit { id: 3, inputs: vec![], gates: vec![] };
    assert_eq!(unify(&vec![empty], &vec![vec![]], &vec![]).unwrap_err(), UnifyError::MalformedCircuit);
}

#[test]
fn no_circuits_merge_to_nothing() {
    let f = unify(&vec![], &vec![], &vec![]).unwrap();
    assert!(f.gates.is_empty());
    assert!(f.inputs.is_empty());
}
