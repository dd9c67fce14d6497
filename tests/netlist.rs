use lut_synth::circuit::GateType;
use lut_synth::netlist::{build, parse_line, split_lines, NetlistError};
use lut_synth::text::{chars_of, parse_number, split_tokens, ParseError};
use lut_synth::unify::UnifyError;

fn chars(s: &str) -> Vec<char> {
    s.chars().collect()
}

#[test]
fn two_tables_linked_by_reference() {
    let n = build("I0 I1:5 4 0 1 1 0\nL5 I2:6 4 1 0 0 0\n6\n").unwrap();
    assert_eq!(n.outputs, vec![6]);
    assert_eq!(n.circuit.inputs, vec![0, 1, 2]);
    let from_second: Vec<_> = n.circuit.gates.iter().skip(5).collect();
    assert!(from_second.iter().any(|g| g.inputs.contains(&5)));
    assert_eq!(n.circuit.gates[4].output, 5);
    assert_eq!(n.circuit.gates.last().unwrap().output, 6);
}

#[test]
fn primary_inputs_listed_once_in_order() {
    let n = build("I2 I0:5 4 0 0 0 1\nI0 I3:6 4 0 0 0 1\n5 6").unwrap();
    assert_eq!(n.circuit.inputs, vec![2, 0, 3]);
    assert_eq!(n.outputs, vec![5, 6]);
}

#[test]
fn forward_reference_resolves() {
    let n = build("L6 I0:5 4 0 0 0 1\nI1:6 2 0 1\n5").unwrap();
    let first = &n.circuit.gates[..];
    assert!(first.iter().take(2).any(|g| g.inputs.contains(&6)));
}

#[test]
fn dependency_free_zero_table() {
    let n = build(":7 0\n7").unwrap();
    assert!(n.circuit.inputs.is_empty());
    assert_eq!(n.circuit.gates.len(), 1);
    assert_eq!(n.circuit.gates[0].gate_type, GateType::ZERO);
    assert_eq!(n.circuit.gates[0].output, 7);
}

#[test]
fn only_output_line() {
    let n = build("4 5").unwrap();
    assert!(n.circuit.gates.is_empty());
    assert_eq!(n.outputs, vec![4, 5]);
}

#[test]
fn network_errors() {
    assert_eq!(build("").unwrap_err(), NetlistError::Parse(ParseError::MissingOutputLine));
    assert_eq!(build("I0 5 2 0 1\n5").unwrap_err(), NetlistError::Parse(ParseError::MissingDelimiter));
    assert_eq!(build("I0:5 2 0 1\nfive").unwrap_err(), NetlistError::Parse(ParseError::BadNumber));
    assert_eq!(build("I0:5 2 0 3\n5").unwrap_err(), NetlistError::Parse(ParseError::BadBit));
    assert_eq!(build("Q:5 2 0 1\n5").unwrap_err(), NetlistError::Parse(ParseError::BadReference));
    assert_eq!(build("I0:5 4 0 1 1 0\n5").unwrap_err(), NetlistError::Unify(UnifyError::ArityMismatch));
    assert_eq!(build("I0:5 2 0 1\nI1:5 2 1 0\n5").unwrap_err(), NetlistError::Unify(UnifyError::IdClash));
    assert_eq!(build("C9:5 2 0 1\n5").unwrap_err(), NetlistError::Unify(UnifyError::UnknownCircuit));
}

#[test]
fn line_parts() {
    let (lut, bs) = parse_line(&chars("I1 I2 : 3 4 0 0 0 1")).unwrap();
    assert_eq!(lut.id, 3);
    assert_eq!(lut.table, vec![1, 0, 0, 0]);
    assert_eq!(bs.len(), 2);
}

#[test]
fn text_helpers() {
    let ls = split_lines(&chars("a b\n\nc\n"));
    assert_eq!(ls, vec![chars("a b"), chars(""), chars("c")]);
    let ts = split_tokens(&chars("  12 \t x\r\n"));
    assert_eq!(ts, vec![chars("12"), chars("x")]);
    assert_eq!(parse_number(&chars("0042")), Some(42));
    assert_eq!(parse_number(&chars("18446744073709551616")), None);
    assert_eq!(parse_number(&chars("")), None);
    assert_eq!(chars_of("héllo"), chars("héllo"));
}
