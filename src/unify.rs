//! Merging locally numbered circuits into one circuit with unique wire ids.

use vstd::prelude::*;
use crate::circuit::{GateType, LogicGate, GateView, Circuit, CircuitView, gate_views, arity_ok, lemma_gate_views_push};
use crate::deps::Binding;
use crate::lut::input_wires;

verus! {

/// Why a set of circuits cannot be merged.
#[derive(Clone, Copy, PartialEq, Eq, Structural, Debug)]
pub enum UnifyError {
    /// There is not exactly one binding list per circuit.
    CountMismatch,
    /// A circuit is not numbered locally: inputs `0 .. n`, gate `k` driving
    /// wire `n + k` from earlier wires, and at least one gate.
    MalformedCircuit,
    /// A circuit has a different number of bindings than inputs.
    ArityMismatch,
    /// Two circuits share an id, a circuit id is also a primary input, or a
    /// primary input is listed twice.
    IdClash,
    /// A binding names a circuit that is not there.
    UnknownCircuit,
    /// The fresh wire ids would not fit in `usize`.
    WireSpaceExhausted,
}

/// A circuit numbered as synthesis numbers it: inputs `0 .. n`, gate `k`
/// driving wire `n + k` from wires below it, the last gate being the output.
pub open spec fn local_shape(c: CircuitView) -> bool {
    let n = c.inputs.len();
    &&& c.gates.len() >= 1
    &&& c.inputs == input_wires(n)
    &&& forall|k: int| 0 <= k < c.gates.len() ==> (#[trigger] c.gates[k]).output == n + k
    &&& forall|k: int| 0 <= k < c.gates.len() ==> arity_ok(#[trigger] c.gates[k])
    &&& forall|k: int, m: int| 0 <= k < c.gates.len() && 0 <= m < c.gates[k].operands.len()
            ==> #[trigger] c.gates[k].operands[m] < n + k
}

pub open spec fn circuit_views(cs: Seq<Circuit>) -> Seq<CircuitView> {
    cs.map_values(|c: Circuit| c@)
}

pub open spec fn binding_views(bs: Seq<Vec<Binding>>) -> Seq<Seq<Binding>> {
    bs.map_values(|b: Vec<Binding>| b@)
}

pub open spec fn max_int(a: int, b: int) -> int {
    if a >= b { a } else { b }
}

/// The largest circuit id among the first `i` circuits (0 when there is none).
pub open spec fn max_circuit_id(cs: Seq<CircuitView>, i: int) -> int
    decreases i,
{
    if i <= 0 { 0 } else { max_int(max_circuit_id(cs, i - 1), cs[i - 1].id as int) }
}

/// The largest of the first `i` wires (0 when there is none).
pub open spec fn max_wire(ws: Seq<usize>, i: int) -> int
    decreases i,
{
    if i <= 0 { 0 } else { max_int(max_wire(ws, i - 1), ws[i - 1] as int) }
}

/// The first fresh wire id: above every circuit id and primary input, and
/// above the count of both.
pub open spec fn first_fresh(cs: Seq<CircuitView>, prims: Seq<usize>) -> int {
    max_int(max_int((cs.len() + prims.len()) as int, max_circuit_id(cs, cs.len() as int)), max_wire(prims, prims.len() as int)) + 1
}

/// The number of fresh wires that the first `i` circuits use: all their gate
/// outputs but the circuit outputs.
pub open spec fn fresh_count(cs: Seq<CircuitView>, i: int) -> int
    decreases i,
{
    if i <= 0 { 0 } else { fresh_count(cs, i - 1) + cs[i - 1].gates.len() - 1 }
}

/// The global id of local wire `w` of circuit `c`, whose inputs are bound by
/// `b` and whose fresh wires are numbered from `base`.
pub open spec fn map_wire(c: CircuitView, b: Seq<Binding>, base: int, w: usize) -> usize {
    let n = c.inputs.len();
    if w < n {
        b[w as int].wire()
    } else if w == n + c.gates.len() - 1 {
        c.id
    } else {
        (base + (w - n)) as usize
    }
}

/// A gate of `c` with its wires renamed to global ids.
pub open spec fn map_gate(c: CircuitView, b: Seq<Binding>, base: int, g: GateView) -> GateView {
    GateView {
        kind: g.kind,
        operands: g.operands.map_values(|w: usize| map_wire(c, b, base, w)),
        output: map_wire(c, b, base, g.output),
    }
}

/// The gates of `c` renamed to global ids.
pub open spec fn map_gates(c: CircuitView, b: Seq<Binding>, base: int) -> Seq<GateView> {
    c.gates.map_values(|g: GateView| map_gate(c, b, base, g))
}

/// The renamed gates of the first `i` circuits, in order.
pub open spec fn merged(cs: Seq<CircuitView>, bs: Seq<Seq<Binding>>, start: int, i: int) -> Seq<GateView>
    decreases i,
{
    if i <= 0 {
        seq![]
    } else {
        merged(cs, bs, start, i - 1) + map_gates(cs[i - 1], bs[i - 1], start + fresh_count(cs, i - 1))
    }
}

/// Circuit ids are distinct, distinct from the primary inputs, and the
/// primary inputs are distinct.
pub open spec fn ids_distinct(cs: Seq<CircuitView>, prims: Seq<usize>) -> bool {
    &&& forall|i: int, j: int| 0 <= i < j < cs.len() ==> (#[trigger] cs[i]).id != (#[trigger] cs[j]).id
    &&& forall|i: int, k: int| 0 <= i < cs.len() && 0 <= k < prims.len() ==> (#[trigger] cs[i]).id != #[trigger] prims[k]
    &&& prims.no_duplicates()
}

/// Every circuit named by a binding is present.
pub open spec fn refs_known(cs: Seq<CircuitView>, bs: Seq<Seq<Binding>>) -> bool {
    forall|i: int, k: int| 0 <= i < bs.len() && 0 <= k < bs[i].len() && (#[trigger] bs[i][k]) is CircuitOutput
        ==> exists|j: int| 0 <= j < cs.len() && (#[trigger] cs[j]).id == bs[i][k]->CircuitOutput_0
}

/// Each circuit has one binding per input.
pub open spec fn arities_match(cs: Seq<CircuitView>, bs: Seq<Seq<Binding>>) -> bool {
    forall|i: int| 0 <= i < cs.len() ==> (#[trigger] bs[i]).len() == cs[i].inputs.len()
}

/// The merged circuit, or why there is none.
pub open spec fn unified(cs: Seq<CircuitView>, bs: Seq<Seq<Binding>>, prims: Seq<usize>) -> Result<CircuitView, UnifyError> {
    if cs.len() != bs.len() {
        Err(UnifyError::CountMismatch)
    } else if exists|i: int| 0 <= i < cs.len() && !local_shape(#[trigger] cs[i]) {
        Err(UnifyError::MalformedCircuit)
    } else if !arities_match(cs, bs) {
        Err(UnifyError::ArityMismatch)
    } else if !ids_distinct(cs, prims) {
        Err(UnifyError::IdClash)
    } else if !refs_known(cs, bs) {
        Err(UnifyError::UnknownCircuit)
    } else if first_fresh(cs, prims) + fresh_count(cs, cs.len() as int) > usize::MAX {
        Err(UnifyError::WireSpaceExhausted)
    } else {
        Ok(CircuitView { id: 0, inputs: prims, gates: merged(cs, bs, first_fresh(cs, prims), cs.len() as int) })
    }
}

/// Whether `c` is numbered locally.
pub fn check_local(c: &Circuit) -> (r: bool)
    ensures
        r == local_shape(c@),
{
    let n: usize = c.inputs.len();
    let ghost cv = c@;
    if c.gates.len() == 0 {
        return false;
    }
    let mut k: usize = 0;
    while k < n
        invariant
            k <= n == c.inputs@.len(),
            forall|m: int| 0 <= m < k ==> c.inputs@[m] == m,
        decreases n - k,
    {
        if c.inputs[k] != k {
            assert(c.inputs@ != input_wires(n as nat));
            return false;
        }
        k = k + 1;
    }
    assert(c.inputs@ =~= input_wires(n as nat));
    let mut k: usize = 0;
    while k < c.gates.len()
        invariant
            k <= c.gates@.len(),
            cv == c@,
            n == cv.inputs.len(),
            forall|j: int| 0 <= j < k ==> (#[trigger] cv.gates[j]).output == n + j,
            forall|j: int| 0 <= j < k ==> arity_ok(#[trigger] cv.gates[j]),
            forall|j: int, m: int| 0 <= j < k && 0 <= m < cv.gates[j].operands.len()
                ==> #[trigger] cv.gates[j].operands[m] < n + j,
        decreases c.gates@.len() - k,
    {
        let g = &c.gates[k];
        assert(cv.gates[k as int] == g@);
        if g.output < n || g.output - n != k {
            return false;
        }
        let ok = match g.gate_type {
            GateType::AND => g.inputs.len() >= 1,
            GateType::OR => g.inputs.len() >= 1,
            GateType::NOT => g.inputs.len() == 1,
            GateType::ZERO => g.inputs.len() == 0,
        };
        if !ok {
            return false;
        }
        let mut m: usize = 0;
        while m < g.inputs.len()
            invariant
                m <= g.inputs@.len(),
                forall|q: int| 0 <= q < m ==> g.inputs@[q] < g.output,
                k < cv.gates.len(),
                cv.gates[k as int] == g@,
                g.output == n + k,
                cv == c@,
                n == cv.inputs.len(),
            decreases g.inputs@.len() - m,
        {
            if g.inputs[m] >= g.output {
                assert(cv.gates[k as int].operands[m as int] >= n + k);
                return false;
            }
            m = m + 1;
        }
        k = k + 1;
    }
    true
}

/// Hands out fresh wire ids in increasing order.
pub struct WireAlloc {
    next: usize,
}

impl WireAlloc {
    /// The id that the next allocation returns.
    pub closed spec fn next_id(&self) -> usize {
        self.next
    }

    /// An allocator whose first id is `start`.
    pub fn new(start: usize) -> (r: WireAlloc)
        ensures
            r.next_id() == start,
    {
        WireAlloc { next: start }
    }

    /// The id that the next allocation returns.
    pub fn peek(&self) -> (r: usize)
        ensures
            r == self.next_id(),
    {
        self.next
    }

    /// Returns a fresh id: the one after every id handed out before.
    pub fn fresh(&mut self) -> (r: usize)
        requires
            old(self).next_id() < usize::MAX,
        ensures
            r == old(self).next_id(),
            final(self).next_id() == r + 1,
    {
        let r = self.next;
        self.next = self.next + 1;
        r
    }
}

/// Appends the gates of `c`, renamed to global ids, to `gates`; its fresh
/// wires come from `alloc`.
fn map_circuit(c: &Circuit, b: &Vec<Binding>, alloc: &mut WireAlloc, gates: &mut Vec<LogicGate>)
    requires
        local_shape(c@),
        b@.len() == c@.inputs.len(),
        old(alloc).next_id() + c@.gates.len() - 1 <= usize::MAX,
    ensures
        gate_views(final(gates)@) == gate_views(old(gates)@) + map_gates(c@, b@, old(alloc).next_id() as int),
        final(alloc).next_id() == old(alloc).next_id() + c@.gates.len() - 1,
{
    let ghost cv = c@;
    let ghost g0 = gate_views(gates@);
    let n: usize = c.inputs.len();
    let gl: usize = c.gates.len();
    let base: usize = alloc.peek();
    assert(cv.gates[gl - 1].output == n + gl - 1);
    let last: usize = c.gates[gl - 1].output;
    let mut wmap: Vec<usize> = Vec::new();
    let mut j: usize = 0;
    while j < last
        invariant
            cv == c@,
            local_shape(cv),
            b@.len() == n == cv.inputs.len(),
            gl == cv.gates.len(),
            last == n + gl - 1,
            base + gl - 1 <= usize::MAX,
            j <= last,
            wmap@.len() == j,
            forall|q: int| 0 <= q < j ==> wmap@[q] == map_wire(cv, b@, base as int, q as usize),
            alloc.next_id() == if j <= n { base as int } else { base + j - n },
        decreases last - j,
    {
        if j < n {
            let w = b[j].wire_id();
            wmap.push(w);
        } else {
            let f = alloc.fresh();
            wmap.push(f);
        }
        j = j + 1;
    }
    wmap.push(c.id);
    assert(forall|q: int| 0 <= q <= last ==> wmap@[q] == map_wire(cv, b@, base as int, q as usize));
    let mut k: usize = 0;
    while k < gl
        invariant
            cv == c@,
            local_shape(cv),
            gl == cv.gates.len(),
            last == n + gl - 1,
            n == cv.inputs.len(),
            wmap@.len() == last + 1,
            forall|q: int| 0 <= q <= last ==> wmap@[q] == map_wire(cv, b@, base as int, q as usize),
            k <= gl,
            gate_views(gates@) == g0 + map_gates(cv, b@, base as int).take(k as int),
        decreases gl - k,
    {
        let g = &c.gates[k];
        assert(g@ == cv.gates[k as int]);
        let mut ops: Vec<usize> = Vec::new();
        let mut m: usize = 0;
        while m < g.inputs.len()
            invariant
                cv == c@,
                local_shape(cv),
                k < gl == cv.gates.len(),
                g@ == cv.gates[k as int],
                last == n + gl - 1,
                n == cv.inputs.len(),
                wmap@.len() == last + 1,
                forall|q: int| 0 <= q <= last ==> wmap@[q] == map_wire(cv, b@, base as int, q as usize),
                m <= g.inputs@.len(),
                ops@ == Seq::new(m as nat, |q: int| map_wire(cv, b@, base as int, g.inputs@[q])),
            decreases g.inputs@.len() - m,
        {
            assert(cv.gates[k as int].operands[m as int] < n + k);
            ops.push(wmap[g.inputs[m]]);
            m = m + 1;
            assert(ops@ =~= Seq::new(m as nat, |q: int| map_wire(cv, b@, base as int, g.inputs@[q])));
        }
        assert(ops@ =~= g@.operands.map_values(|w: usize| map_wire(cv, b@, base as int, w)));
        let out = wmap[g.output];
        let ng = LogicGate::new(g.gate_type, ops, out);
        proof { lemma_gate_views_push(gates@, ng); }
        gates.push(ng);
        k = k + 1;
        assert(gate_views(gates@) =~= g0 + map_gates(cv, b@, base as int).take(k as int));
    }
    assert(map_gates(cv, b@, base as int).take(gl as int) =~= map_gates(cv, b@, base as int));
}

/// Whether every circuit has one binding per input.
fn check_arities(cs: &Vec<Circuit>, bs: &Vec<Vec<Binding>>) -> (r: bool)
    requires
        cs@.len() == bs@.len(),
    ensures
        r == arities_match(circuit_views(cs@), binding_views(bs@)),
{
    let ghost cv = circuit_views(cs@);
    let ghost bv = binding_views(bs@);
    let mut i: usize = 0;
    while i < cs.len()
        invariant
            i <= cs@.len() == bs@.len(),
            cv == circuit_views(cs@),
            bv == binding_views(bs@),
            forall|j: int| 0 <= j < i ==> (#[trigger] bv[j]).len() == cv[j].inputs.len(),
        decreases cs@.len() - i,
    {
        if bs[i].len() != cs[i].inputs.len() {
            assert(bv[i as int].len() != cv[i as int].inputs.len());
            return false;
        }
        i = i + 1;
    }
    true
}

/// Whether circuit ids and primary inputs are all distinct.
fn check_ids(cs: &Vec<Circuit>, prims: &Vec<usize>) -> (r: bool)
    ensures
        r == ids_distinct(circuit_views(cs@), prims@),
{
    let ghost cv = circuit_views(cs@);
    let mut i: usize = 0;
    while i < cs.len()
        invariant
            i <= cs@.len(),
            cv == circuit_views(cs@),
            forall|a: int, b: int| 0 <= a < b < cv.len() && a < i ==> (#[trigger] cv[a]).id != (#[trigger] cv[b]).id,
            forall|a: int, k: int| 0 <= a < i && 0 <= k < prims@.len() ==> (#[trigger] cv[a]).id != #[trigger] prims@[k],
        decreases cs@.len() - i,
    {
        let mut j: usize = i + 1;
        while j < cs.len()
            invariant
                i < j <= cs@.len(),
                cv == circuit_views(cs@),
                forall|b: int| i < b < j ==> cv[i as int].id != (#[trigger] cv[b]).id,
            decreases cs@.len() - j,
        {
            if cs[i].id == cs[j].id {
                assert(cv[i as int].id == cv[j as int].id);
                return false;
            }
            j = j + 1;
        }
        let mut k: usize = 0;
        while k < prims.len()
            invariant
                i < cs@.len(),
                k <= prims@.len(),
                cv == circuit_views(cs@),
                forall|q: int| 0 <= q < k ==> cv[i as int].id != #[trigger] prims@[q],
            decreases prims@.len() - k,
        {
            if cs[i].id == prims[k] {
                assert(cv[i as int].id == prims@[k as int]);
                return false;
            }
            k = k + 1;
        }
        i = i + 1;
    }
    let mut p: usize = 0;
    while p < prims.len()
        invariant
            p <= prims@.len(),
            forall|a: int, b: int| 0 <= a < prims@.len() && 0 <= b < prims@.len() && a != b && a < p
                ==> prims@[a] != prims@[b],
        decreases prims@.len() - p,
    {
        let mut q: usize = 0;
        while q < prims.len()
            invariant
                p < prims@.len(),
                q <= prims@.len(),
                forall|b: int| 0 <= b < q && b != p ==> prims@[p as int] != prims@[b],
            decreases prims@.len() - q,
        {
            if q != p && prims[p] == prims[q] {
                assert(!prims@.no_duplicates());
                return false;
            }
            q = q + 1;
        }
        p = p + 1;
    }
    true
}

/// Whether some circuit has id `id`.
fn has_circuit(cs: &Vec<Circuit>, id: usize) -> (r: bool)
    ensures
        r == exists|j: int| 0 <= j < cs@.len() && (#[trigger] circuit_views(cs@)[j]).id == id,
{
    let mut j: usize = 0;
    while j < cs.len()
        invariant
            j <= cs@.len(),
            forall|q: int| 0 <= q < j ==> (#[trigger] circuit_views(cs@)[q]).id != id,
        decreases cs@.len() - j,
    {
        if cs[j].id == id {
            assert(circuit_views(cs@)[j as int].id == id);
            return true;
        }
        j = j + 1;
    }
    false
}

/// Whether every circuit that a binding names is present.
fn check_refs(cs: &Vec<Circuit>, bs: &Vec<Vec<Binding>>) -> (r: bool)
    ensures
        r == refs_known(circuit_views(cs@), binding_views(bs@)),
{
    let ghost cv = circuit_views(cs@);
    let ghost bv = binding_views(bs@);
    let mut i: usize = 0;
    while i < bs.len()
        invariant
            i <= bs@.len(),
            cv == circuit_views(cs@),
            bv == binding_views(bs@),
            forall|a: int, k: int| 0 <= a < i && 0 <= k < bv[a].len() && (#[trigger] bv[a][k]) is CircuitOutput
                ==> exists|j: int| 0 <= j < cv.len() && (#[trigger] cv[j]).id == bv[a][k]->CircuitOutput_0,
        decreases bs@.len() - i,
    {
        let b = &bs[i];
        assert(b@ == bv[i as int]);
        let mut k: usize = 0;
        while k < b.len()
            invariant
                i < bs@.len(),
                k <= b@.len(),
                b@ == bv[i as int],
                cv == circuit_views(cs@),
                bv == binding_views(bs@),
                forall|a: int, q: int| 0 <= a < i && 0 <= q < bv[a].len() && (#[trigger] bv[a][q]) is CircuitOutput
                    ==> exists|j: int| 0 <= j < cv.len() && (#[trigger] cv[j]).id == bv[a][q]->CircuitOutput_0,
                forall|q: int| 0 <= q < k && (#[trigger] bv[i as int][q]) is CircuitOutput
                    ==> exists|j: int| 0 <= j < cv.len() && (#[trigger] cv[j]).id == bv[i as int][q]->CircuitOutput_0,
            decreases b@.len() - k,
        {
            match b[k] {
                Binding::CircuitOutput(id) => {
                    if !has_circuit(cs, id) {
                        assert(bv[i as int][k as int] is CircuitOutput);
                        return false;
                    }
                },
                Binding::PrimaryInput(_) => {},
            }
            k = k + 1;
        }
        i = i + 1;
    }
    true
}

/// The first fresh wire id, when it fits in `usize`.
fn fresh_start(cs: &Vec<Circuit>, prims: &Vec<usize>) -> (r: Option<usize>)
    ensures
        r is Some <==> first_fresh(circuit_views(cs@), prims@) <= usize::MAX,
        r is Some ==> r->0 == first_fresh(circuit_views(cs@), prims@),
{
    let ghost cv = circuit_views(cs@);
    let mut m: usize = match cs.len().checked_add(prims.len()) {
        Some(v) => v,
        None => { return None; },
    };
    let ghost m0: int = m as int;
    let mut i: usize = 0;
    while i < cs.len()
        invariant
            i <= cs@.len(),
            cv == circuit_views(cs@),
            m0 == cs@.len() + prims@.len(),
            m == max_int(m0, max_circuit_id(cv, i as int)),
        decreases cs@.len() - i,
    {
        if cs[i].id > m {
            m = cs[i].id;
        }
        i = i + 1;
    }
    let mut k: usize = 0;
    while k < prims.len()
        invariant
            k <= prims@.len(),
            m == max_int(max_int(m0, max_circuit_id(cv, cv.len() as int)), max_wire(prims@, k as int)),
        decreases prims@.len() - k,
    {
        if prims[k] > m {
            m = prims[k];
        }
        k = k + 1;
    }
    if m == usize::MAX {
        None
    } else {
        Some(m + 1)
    }
}

/// Merges the circuits into one: its inputs are `primary_inputs`, and the
/// gates of circuit `i` follow those of the circuits before it, with each
/// local wire renamed by `map_wire`: an input to the wire of its binding,
/// the circuit's output to the circuit's id, and every other wire to a fresh
/// id above all circuit ids and primary inputs.
pub fn unify(circuits: &Vec<Circuit>, bindings: &Vec<Vec<Binding>>, primary_inputs: &Vec<usize>) -> (r: Result<Circuit, UnifyError>)
    ensures
        r is Ok ==> unified(circuit_views(circuits@), binding_views(bindings@), primary_inputs@) == Ok::<_, UnifyError>(r->Ok_0@),
        r is Err ==> unified(circuit_views(circuits@), binding_views(bindings@), primary_inputs@) == Err::<CircuitView, _>(r->Err_0),
{
    let ghost cv = circuit_views(circuits@);
    let ghost bv = binding_views(bindings@);
    if circuits.len() != bindings.len() {
        return Err(UnifyError::CountMismatch);
    }
    let mut i: usize = 0;
    while i < circuits.len()
        invariant
            i <= cv.len() == circuits@.len(),
            cv == circuit_views(circuits@),
            bv == binding_views(bindings@),
            cv.len() == bv.len(),
            forall|j: int| 0 <= j < i ==> local_shape(#[trigger] cv[j]),
        decreases circuits@.len() - i,
    {
        if !check_local(&circuits[i]) {
            assert(!local_shape(cv[i as int]));
            return Err(UnifyError::MalformedCircuit);
        }
        i = i + 1;
    }
    if !check_arities(circuits, bindings) {
        return Err(UnifyError::ArityMismatch);
    }
    if !check_ids(circuits, primary_inputs) {
        return Err(UnifyError::IdClash);
    }
    if !check_refs(circuits, bindings) {
        return Err(UnifyError::UnknownCircuit);
    }
    let start: usize = match fresh_start(circuits, primary_inputs) {
        Some(v) => v,
        None => {
            proof { lemma_fresh_count_mono(cv, 0, cv.len() as int); }
            return Err(UnifyError::WireSpaceExhausted);
        },
    };
    let mut total: usize = start;
    let mut i: usize = 0;
    while i < circuits.len()
        invariant
            i <= cv.len() == circuits@.len(),
            cv == circuit_views(circuits@),
            forall|j: int| 0 <= j < cv.len() ==> local_shape(#[trigger] cv[j]),
            total == start + fresh_count(cv, i as int),
            bv == binding_views(bindings@),
            cv.len() == bv.len(),
            arities_match(cv, bv),
            ids_distinct(cv, primary_inputs@),
            refs_known(cv, bv),
            start == first_fresh(cv, primary_inputs@),
        decreases circuits@.len() - i,
    {
        assert(local_shape(cv[i as int]));
        let used: usize = circuits[i].gates.len() - 1;
        if total > usize::MAX - used {
            proof { lemma_fresh_count_mono(cv, i as int + 1, cv.len() as int); }
            return Err(UnifyError::WireSpaceExhausted);
        }
        total = total + used;
        i = i + 1;
    }
    let mut alloc = WireAlloc::new(start);
    let mut gates: Vec<LogicGate> = Vec::new();
    let mut i: usize = 0;
    assert(gate_views(gates@) =~= merged(cv, bv, start as int, 0));
    while i < circuits.len()
        invariant
            i <= cv.len() == circuits@.len() == bv.len() == bindings@.len(),
            cv == circuit_views(circuits@),
            bv == binding_views(bindings@),
            forall|j: int| 0 <= j < cv.len() ==> local_shape(#[trigger] cv[j]),
            arities_match(cv, bv),
            start + fresh_count(cv, cv.len() as int) <= usize::MAX,
            alloc.next_id() == start + fresh_count(cv, i as int),
            gate_views(gates@) == merged(cv, bv, start as int, i as int),
        decreases circuits@.len() - i,
    {
        proof { lemma_fresh_count_mono(cv, i as int + 1, cv.len() as int); }
        assert(bv[i as int] == bindings@[i as int]@);
        assert(local_shape(cv[i as int]));
        map_circuit(&circuits[i], &bindings[i], &mut alloc, &mut gates);
        i = i + 1;
    }
    let inputs = primary_inputs.clone();
    assert(inputs@ =~= primary_inputs@);
    Ok(Circuit { id: 0, inputs, gates })
}

/// Fresh counts only grow as circuits are added.
proof fn lemma_fresh_count_mono(cs: Seq<CircuitView>, i: int, j: int)
    requires
        0 <= i <= j <= cs.len(),
        forall|k: int| 0 <= k < cs.len() ==> local_shape(#[trigger] cs[k]),
    ensures
        fresh_count(cs, i) <= fresh_count(cs, j),
    decreases j - i,
{
    if i < j {
        lemma_fresh_count_mono(cs, i, j - 1);
        assert(local_shape(cs[j - 1]));
    }
}

proof fn lemma_max_circuit_id(cs: Seq<CircuitView>, i: int)
    requires
        0 <= i <= cs.len(),
    ensures
        forall|j: int| 0 <= j < i ==> (#[trigger] cs[j]).id <= max_circuit_id(cs, i),
        max_circuit_id(cs, i) >= 0,
    decreases i,
{
    if i > 0 {
        lemma_max_circuit_id(cs, i - 1);
    }
}

proof fn lemma_max_wire(ws: Seq<usize>, i: int)
    requires
        0 <= i <= ws.len(),
    ensures
        forall|j: int| 0 <= j < i ==> #[trigger] ws[j] <= max_wire(ws, i),
    decreases i,
{
    if i > 0 {
        lemma_max_wire(ws, i - 1);
    }
}

/// In a renamed circuit the last gate drives the circuit's id and gate `k`
/// before it drives fresh wire `base + k`.
proof fn lemma_map_gates_outputs(c: CircuitView, b: Seq<Binding>, base: int)
    requires
        local_shape(c),
        0 <= base,
        base + c.gates.len() - 1 <= usize::MAX,
    ensures
        map_gates(c, b, base).len() == c.gates.len(),
        forall|k: int| 0 <= k < c.gates.len() ==> (#[trigger] map_gates(c, b, base)[k]).output
            == if k == c.gates.len() - 1 { c.id as int } else { base + k },
{
    assert forall|k: int| 0 <= k < c.gates.len() implies (#[trigger] map_gates(c, b, base)[k]).output
        == if k == c.gates.len() - 1 { c.id as int } else { base + k } by {
        assert(c.gates[k].output == c.inputs.len() + k);
    }
}

/// Every gate output of the first `i` renamed circuits is a fresh wire
/// handed out so far or the id of one of those circuits, and no two gates
/// share an output.
proof fn lemma_merged_outputs(cs: Seq<CircuitView>, bs: Seq<Seq<Binding>>, start: int, i: int)
    requires
        0 <= i <= cs.len(),
        forall|j: int| 0 <= j < cs.len() ==> local_shape(#[trigger] cs[j]),
        forall|a: int, b: int| 0 <= a < b < cs.len() ==> (#[trigger] cs[a]).id != (#[trigger] cs[b]).id,
        start > max_circuit_id(cs, cs.len() as int),
        start + fresh_count(cs, cs.len() as int) <= usize::MAX,
    ensures
        forall|a: int| 0 <= a < merged(cs, bs, start, i).len() ==>
            (start <= (#[trigger] merged(cs, bs, start, i)[a]).output < start + fresh_count(cs, i))
            || exists|j: int| 0 <= j < i && merged(cs, bs, start, i)[a].output == (#[trigger] cs[j]).id,
        forall|a: int, b: int| 0 <= a < b < merged(cs, bs, start, i).len() ==>
            (#[trigger] merged(cs, bs, start, i)[a]).output != (#[trigger] merged(cs, bs, start, i)[b]).output,
    decreases i,
{
    if i > 0 {
        lemma_merged_outputs(cs, bs, start, i - 1);
        lemma_max_circuit_id(cs, cs.len() as int);
        lemma_fresh_count_mono(cs, i, cs.len() as int);
        lemma_fresh_count_mono(cs, 0, i - 1);
        let c = cs[i - 1];
        assert(local_shape(c));
        let base = start + fresh_count(cs, i - 1);
        let gs = merged(cs, bs, start, i - 1);
        let mg = map_gates(c, bs[i - 1], base);
        let all = merged(cs, bs, start, i);
        lemma_map_gates_outputs(c, bs[i - 1], base);
        assert(all == gs + mg);
        assert(c.id < start);
        assert forall|a: int| 0 <= a < all.len() implies
            (start <= (#[trigger] all[a]).output < start + fresh_count(cs, i))
            || exists|j: int| 0 <= j < i && all[a].output == (#[trigger] cs[j]).id by {
            if a < gs.len() {
                assert(all[a] == gs[a]);
                if !(start <= gs[a].output < start + fresh_count(cs, i - 1)) {
                    let j = choose|j: int| 0 <= j < i - 1 && gs[a].output == (#[trigger] cs[j]).id;
                    assert(all[a].output == cs[j].id);
                }
            } else {
                assert(all[a] == mg[a - gs.len()]);
                if a - gs.len() == c.gates.len() - 1 {
                    assert(all[a].output == cs[i - 1].id);
                }
            }
        }
        assert forall|a: int, b: int| 0 <= a < b < all.len() implies
            (#[trigger] all[a]).output != (#[trigger] all[b]).output by {
            if b < gs.len() {
                assert(all[a] == gs[a] && all[b] == gs[b]);
            } else if a < gs.len() {
                assert(all[a] == gs[a]);
                assert(all[b] == mg[b - gs.len()]);
                if !(start <= gs[a].output < start + fresh_count(cs, i - 1)) {
                    let j = choose|j: int| 0 <= j < i - 1 && gs[a].output == (#[trigger] cs[j]).id;
                    assert(cs[j].id <= max_circuit_id(cs, cs.len() as int));
                }
            } else {
                assert(all[a] == mg[a - gs.len()]);
                assert(all[b] == mg[b - gs.len()]);
            }
        }
    }
}

/// No two gates of a merged circuit drive the same wire.
pub proof fn lemma_outputs_unique(cs: Seq<CircuitView>, bs: Seq<Seq<Binding>>, prims: Seq<usize>)
    requires
        unified(cs, bs, prims) is Ok,
    ensures
        forall|a: int, b: int| 0 <= a < b < unified(cs, bs, prims)->Ok_0.gates.len() ==>
            (#[trigger] unified(cs, bs, prims)->Ok_0.gates[a]).output
                != (#[trigger] unified(cs, bs, prims)->Ok_0.gates[b]).output,
{
    let start = first_fresh(cs, prims);
    assert(forall|j: int| 0 <= j < cs.len() ==> local_shape(#[trigger] cs[j]));
    lemma_merged_outputs(cs, bs, start, cs.len() as int);
}

/// Each circuit gets exactly one binding per input: merging fails with
/// `ArityMismatch` when a count differs and every earlier check passes, and
/// a merge that succeeds had matching counts.
pub proof fn lemma_arity_checked(cs: Seq<CircuitView>, bs: Seq<Seq<Binding>>, prims: Seq<usize>)
    ensures
        unified(cs, bs, prims) is Ok ==> forall|i: int| 0 <= i < cs.len() ==> (#[trigger] bs[i]).len() == cs[i].inputs.len(),
        cs.len() == bs.len() && (forall|i: int| 0 <= i < cs.len() ==> local_shape(#[trigger] cs[i]))
            && (exists|i: int| 0 <= i < cs.len() && (#[trigger] bs[i]).len() != cs[i].inputs.len())
            ==> unified(cs, bs, prims) == Err::<CircuitView, _>(UnifyError::ArityMismatch),
{
}

/// The fresh wire that internal wire `w` of circuit `i` becomes.
pub open spec fn fresh_wire(cs: Seq<CircuitView>, prims: Seq<usize>, i: int, w: int) -> int {
    first_fresh(cs, prims) + fresh_count(cs, i) + (w - cs[i].inputs.len())
}

/// Whether `w` is a wire of circuit `i` that is neither an input nor its output.
pub open spec fn internal_wire(cs: Seq<CircuitView>, i: int, w: int) -> bool {
    0 <= i < cs.len() && cs[i].inputs.len() <= w < cs[i].inputs.len() + cs[i].gates.len() - 1
}

/// Fresh wires never collide: each is above every circuit id and primary
/// input, two different internal wires get different fresh wires, and the
/// renaming gives internal wires exactly these.
pub proof fn lemma_fresh_distinct(cs: Seq<CircuitView>, bs: Seq<Seq<Binding>>, prims: Seq<usize>, i1: int, w1: int, i2: int, w2: int)
    requires
        unified(cs, bs, prims) is Ok,
        internal_wire(cs, i1, w1),
        internal_wire(cs, i2, w2),
    ensures
        forall|j: int| 0 <= j < cs.len() ==> (#[trigger] cs[j]).id < fresh_wire(cs, prims, i1, w1),
        forall|k: int| 0 <= k < prims.len() ==> #[trigger] prims[k] < fresh_wire(cs, prims, i1, w1),
        (i1, w1) != (i2, w2) ==> fresh_wire(cs, prims, i1, w1) != fresh_wire(cs, prims, i2, w2),
        map_wire(cs[i1], bs[i1], first_fresh(cs, prims) + fresh_count(cs, i1), w1 as usize) == fresh_wire(cs, prims, i1, w1),
{
    assert(forall|j: int| 0 <= j < cs.len() ==> local_shape(#[trigger] cs[j]));
    lemma_max_circuit_id(cs, cs.len() as int);
    lemma_max_wire(prims, prims.len() as int);
    lemma_fresh_count_mono(cs, 0, i1);
    lemma_fresh_count_mono(cs, i1 + 1, cs.len() as int);
    let c = cs[i1];
    assert(local_shape(c));
    assert(c.gates[c.gates.len() - 1].output == c.inputs.len() + c.gates.len() - 1);
    if i1 < i2 {
        lemma_fresh_count_mono(cs, i1 + 1, i2);
    } else if i2 < i1 {
        lemma_fresh_count_mono(cs, i2 + 1, i1);
    }
}

} // verus!
