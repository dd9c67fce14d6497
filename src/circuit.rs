//! Gates, circuits and their simulation semantics.

use vstd::prelude::*;

verus! {

/// The function a gate computes.
#[allow(non_camel_case_types)]
#[derive(Clone, Copy, PartialEq, Eq, Structural, Debug)]
pub enum GateType {
    /// Conjunction of one or more operands.
    AND,
    /// Disjunction of one or more operands.
    OR,
    /// Negation of exactly one operand.
    NOT,
    /// Constant false; takes no operands.
    ZERO,
}

/// One gate: its kind, the wires it reads, and the wire it drives.
#[derive(Clone, Debug)]
pub struct LogicGate {
    pub gate_type: GateType,
    pub inputs: Vec<usize>,
    pub output: usize,
}

/// The mathematical content of a gate.
pub ghost struct GateView {
    pub kind: GateType,
    pub operands: Seq<usize>,
    pub output: usize,
}

impl View for LogicGate {
    type V = GateView;

    open spec fn view(&self) -> GateView {
        GateView { kind: self.gate_type, operands: self.inputs@, output: self.output }
    }
}

/// A circuit: an id, its primary input wires and its gates in order.
#[derive(Clone, Debug)]
pub struct Circuit {
    pub id: usize,
    pub inputs: Vec<usize>,
    pub gates: Vec<LogicGate>,
}

/// The mathematical content of a circuit.
pub ghost struct CircuitView {
    pub id: usize,
    pub inputs: Seq<usize>,
    pub gates: Seq<GateView>,
}

pub open spec fn gate_views(gates: Seq<LogicGate>) -> Seq<GateView> {
    gates.map_values(|g: LogicGate| g@)
}

impl View for Circuit {
    type V = CircuitView;

    open spec fn view(&self) -> CircuitView {
        CircuitView { id: self.id, inputs: self.inputs@, gates: gate_views(self.gates@) }
    }
}

/// The number of operands a gate of this kind must have is respected.
pub open spec fn arity_ok(g: GateView) -> bool {
    match g.kind {
        GateType::AND => g.operands.len() >= 1,
        GateType::OR => g.operands.len() >= 1,
        GateType::NOT => g.operands.len() == 1,
        GateType::ZERO => g.operands.len() == 0,
    }
}

/// The value a gate drives, given the values of all wires.
pub open spec fn gate_value(g: GateView, e: spec_fn(usize) -> bool) -> bool {
    match g.kind {
        GateType::AND => forall|k: int| 0 <= k < g.operands.len() ==> #[trigger] e(g.operands[k]),
        GateType::OR => exists|k: int| 0 <= k < g.operands.len() && #[trigger] e(g.operands[k]),
        GateType::NOT => !e(g.operands[0]),
        GateType::ZERO => false,
    }
}

/// Simulates the gates in order: each gate sets its output wire from the
/// values that the wires hold at that point.
pub open spec fn run(gates: Seq<GateView>, e: spec_fn(usize) -> bool) -> spec_fn(usize) -> bool
    decreases gates.len(),
{
    if gates.len() == 0 {
        e
    } else {
        let p = run(gates.drop_last(), e);
        let g = gates.last();
        |x: usize| if x == g.output { gate_value(g, p) } else { p(x) }
    }
}

/// Wire values in which wire `w < a.len()` carries `a[w]`; every other wire is false.
pub open spec fn assignment(a: Seq<bool>) -> spec_fn(usize) -> bool {
    |w: usize| if (w as int) < a.len() { a[w as int] } else { false }
}

impl LogicGate {
    /// Builds a gate of the given kind reading `inputs` and driving `output`.
    pub fn new(gate_type: GateType, inputs: Vec<usize>, output: usize) -> (r: LogicGate)
        ensures
            r@ == (GateView { kind: gate_type, operands: inputs@, output }),
    {
        LogicGate { gate_type, inputs, output }
    }
}

/// Appending a gate appends its view.
pub proof fn lemma_gate_views_push(s: Seq<LogicGate>, x: LogicGate)
    ensures
        gate_views(s.push(x)) == gate_views(s).push(x@),
{
    assert(gate_views(s.push(x)) =~= gate_views(s).push(x@));
}

/// Simulating a concatenation is simulating its parts one after the other.
pub proof fn lemma_run_append(g1: Seq<GateView>, g2: Seq<GateView>, e: spec_fn(usize) -> bool, x: usize)
    ensures
        run(g1 + g2, e)(x) == run(g2, run(g1, e))(x),
    decreases g2.len(),
{
    if g2.len() == 0 {
        assert(g1 + g2 =~= g1);
    } else {
        assert((g1 + g2).drop_last() =~= g1 + g2.drop_last());
        assert((g1 + g2).last() == g2.last());
        let g = g2.last();
        let left = run(g1 + g2.drop_last(), e);
        let right = run(g2.drop_last(), run(g1, e));
        assert forall|y: usize| #[trigger] left(y) == right(y) by {
            lemma_run_append(g1, g2.drop_last(), e, y);
        }
        assert forall|k: int| 0 <= k < g.operands.len() implies left(#[trigger] g.operands[k]) == right(g.operands[k]) by {}
        if g.kind == GateType::NOT {
            assert(left(g.operands[0]) == right(g.operands[0]));
        }
        assert(gate_value(g, left) == gate_value(g, right));
    }
}

/// A wire that no gate drives keeps its value through the simulation.
pub proof fn lemma_run_frame(gates: Seq<GateView>, e: spec_fn(usize) -> bool, x: usize)
    requires
        forall|k: int| 0 <= k < gates.len() ==> (#[trigger] gates[k]).output != x,
    ensures
        run(gates, e)(x) == e(x),
    decreases gates.len(),
{
    if gates.len() > 0 {
        assert(gates.last() == gates[gates.len() - 1]);
        lemma_run_frame(gates.drop_last(), e, x);
    }
}

} // verus!
