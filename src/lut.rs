//! Lookup tables and their sum-of-products synthesis.

use vstd::prelude::*;
use crate::text::{ParseError, number, tokens, chars_of, split_tokens, parse_number};
use crate::circuit::{GateType, LogicGate, GateView, Circuit, CircuitView, gate_views, lemma_gate_views_push};

verus! {

/// `2` to the power `n`.
pub open spec fn pow2(n: nat) -> nat
    decreases n,
{
    if n == 0 { 1 } else { 2 * pow2((n - 1) as nat) }
}

/// The number of input bits needed to index `w` rows: the least `k` with `w <= 2^k`.
pub open spec fn bit_width(w: nat) -> nat
    decreases w,
{
    if w <= 1 { 0 } else { 1 + bit_width(((w + 1) / 2) as nat) }
}

/// The `n` low bits of `i`, least significant first.
pub open spec fn lsb_bits(i: nat, n: nat) -> Seq<bool>
    decreases n,
{
    if n == 0 { seq![] } else { seq![i % 2 == 1] + lsb_bits(i / 2, (n - 1) as nat) }
}

/// Whether input `j` (input 0 being the most significant bit) is set in row `i`
/// of a table with `n` inputs.
pub open spec fn row_literal(i: nat, n: nat, j: nat) -> bool {
    lsb_bits(i, n)[n - 1 - j]
}

/// The literals of the product term for row `i` over inputs `0 .. j`, with
/// fresh wires from `w0` on: the NOT gates that were needed, and the AND operands.
pub open spec fn literals(i: nat, n: nat, j: nat, w0: nat) -> (Seq<GateView>, Seq<usize>)
    decreases j,
{
    if j == 0 {
        (seq![], seq![])
    } else {
        let prev = literals(i, n, (j - 1) as nat, w0);
        let k = (j - 1) as usize;
        if row_literal(i, n, (j - 1) as nat) {
            (prev.0, prev.1.push(k))
        } else {
            let w = (w0 + prev.0.len()) as usize;
            (prev.0.push(GateView { kind: GateType::NOT, operands: seq![k], output: w }), prev.1.push(w))
        }
    }
}

/// The gates of the product term for row `i`, with fresh wires from `w0` on.
/// Its last gate drives the term. With no inputs the term is the constant true,
/// built as the negation of a constant false.
pub open spec fn term(i: nat, n: nat, w0: nat) -> Seq<GateView> {
    if n == 0 {
        seq![
            GateView { kind: GateType::ZERO, operands: seq![], output: w0 as usize },
            GateView { kind: GateType::NOT, operands: seq![w0 as usize], output: (w0 + 1) as usize },
        ]
    } else {
        let l = literals(i, n, n, w0);
        l.0.push(GateView { kind: GateType::AND, operands: l.1, output: (w0 + l.0.len()) as usize })
    }
}

/// The product terms for the rows `0 .. r` of `t` whose bit is 1.
pub open spec fn terms(t: Seq<u8>, n: nat, r: nat) -> Seq<GateView>
    decreases r,
{
    if r == 0 {
        seq![]
    } else {
        let g = terms(t, n, (r - 1) as nat);
        if t[r - 1] == 1 { g + term((r - 1) as nat, n, n + g.len()) } else { g }
    }
}

/// The wires that drive the product terms of `terms(t, n, r)`.
pub open spec fn term_wires(t: Seq<u8>, n: nat, r: nat) -> Seq<usize>
    decreases r,
{
    if r == 0 {
        seq![]
    } else {
        let o = term_wires(t, n, (r - 1) as nat);
        if t[r - 1] == 1 { o.push((n + terms(t, n, r).len() - 1) as usize) } else { o }
    }
}

/// The sum-of-products gates for table `t` over `n` inputs: the product terms,
/// then one OR of them all (a constant false when there is none).
pub open spec fn sop_gates(t: Seq<u8>, n: nat) -> Seq<GateView> {
    let g = terms(t, n, t.len());
    let o = term_wires(t, n, t.len());
    let w = (n + g.len()) as usize;
    if o.len() == 0 {
        g.push(GateView { kind: GateType::ZERO, operands: seq![], output: w })
    } else {
        g.push(GateView { kind: GateType::OR, operands: o, output: w })
    }
}

/// The wires `0 .. n`.
pub open spec fn input_wires(n: nat) -> Seq<usize> {
    Seq::new(n, |k: int| k as usize)
}

proof fn lemma_literals_len(i: nat, n: nat, j: nat, w0: nat)
    ensures
        literals(i, n, j, w0).1.len() == j,
        literals(i, n, j, w0).0.len() <= j,
    decreases j,
{
    if j > 0 {
        lemma_literals_len(i, n, (j - 1) as nat, w0);
    }
}

pub(crate) proof fn lemma_terms_len(t: Seq<u8>, n: nat, r: nat)
    requires
        r <= t.len(),
    ensures
        terms(t, n, r).len() <= r * (n + 2),
        term_wires(t, n, r).len() <= r,
    decreases r,
{
    if r > 0 {
        lemma_terms_len(t, n, (r - 1) as nat);
        lemma_literals_len((r - 1) as nat, n, n, n + terms(t, n, (r - 1) as nat).len());
        assert((r - 1) * (n + 2) + (n + 2) == r * (n + 2)) by (nonlinear_arith);
    }
}

/// Computes `bit_width(w)` by halving, rounding up, until one row is left.
pub fn bits_for_rows(w: usize) -> (k: usize)
    ensures
        k == bit_width(w as nat),
{
    let mut cur: usize = w;
    let mut k: usize = 0;
    while cur > 1
        invariant
            k + bit_width(cur as nat) == bit_width(w as nat),
            k <= w,
            k + cur <= w + 1,
        decreases cur,
    {
        assert(cur - cur / 2 == (cur + 1) / 2);
        cur = cur - cur / 2;
        k = k + 1;
    }
    k
}

/// Appends the product term of `row` to `gates`, numbering fresh wires from
/// `n + gates.len()` on.
fn push_term(gates: &mut Vec<LogicGate>, row: usize, n: usize)
    requires
        n + old(gates).len() + n + 2 <= usize::MAX,
    ensures
        gate_views(final(gates)@) == gate_views(old(gates)@) + term(row as nat, n as nat, (n + old(gates).len()) as nat),
{
    let ghost g0 = gate_views(gates@);
    let ghost len0 = gates.len();
    let w0: usize = n + gates.len();
    if n == 0 {
        let z = LogicGate::new(GateType::ZERO, Vec::new(), w0);
        proof { lemma_gate_views_push(gates@, z); }
        gates.push(z);
        let mut v: Vec<usize> = Vec::new();
        v.push(w0);
        let g = LogicGate::new(GateType::NOT, v, w0 + 1);
        proof { lemma_gate_views_push(gates@, g); }
        gates.push(g);
        assert(gate_views(gates@) =~= g0 + term(row as nat, n as nat, w0 as nat));
        return;
    }
    let mut lsb: Vec<bool> = Vec::new();
    let mut cur: usize = row;
    let mut t: usize = 0;
    while t < n
        invariant
            t <= n,
            lsb@.len() == t,
            lsb@ + lsb_bits(cur as nat, (n - t) as nat) == lsb_bits(row as nat, n as nat),
        decreases n - t,
    {
        let ghost before = lsb@;
        assert(lsb_bits(cur as nat, (n - t) as nat) == seq![cur % 2 == 1] + lsb_bits((cur / 2) as nat, (n - t - 1) as nat));
        lsb.push(cur % 2 == 1);
        assert(lsb@ + lsb_bits((cur / 2) as nat, (n - t - 1) as nat) =~= before + lsb_bits(cur as nat, (n - t) as nat));
        cur = cur / 2;
        t = t + 1;
    }
    assert(lsb@ =~= lsb_bits(row as nat, n as nat));
    let mut ops: Vec<usize> = Vec::new();
    let mut j: usize = 0;
    while j < n
        invariant
            j <= n,
            w0 == n + len0,
            w0 + n + 2 <= usize::MAX,
            lsb@ == lsb_bits(row as nat, n as nat),
            lsb@.len() == n,
            gate_views(gates@) == g0 + literals(row as nat, n as nat, j as nat, w0 as nat).0,
            ops@ == literals(row as nat, n as nat, j as nat, w0 as nat).1,
            gates@.len() == len0 + literals(row as nat, n as nat, j as nat, w0 as nat).0.len(),
        decreases n - j,
    {
        proof { lemma_literals_len(row as nat, n as nat, j as nat, w0 as nat); }
        if lsb[n - 1 - j] {
            ops.push(j);
        } else {
            let w: usize = n + gates.len();
            let mut v: Vec<usize> = Vec::new();
            v.push(j);
            let g = LogicGate::new(GateType::NOT, v, w);
            proof { lemma_gate_views_push(gates@, g); }
            gates.push(g);
            ops.push(w);
        }
        j = j + 1;
        assert(gate_views(gates@) =~= g0 + literals(row as nat, n as nat, j as nat, w0 as nat).0);
    }
    proof { lemma_literals_len(row as nat, n as nat, n as nat, w0 as nat); }
    let w: usize = n + gates.len();
    let g = LogicGate::new(GateType::AND, ops, w);
    proof { lemma_gate_views_push(gates@, g); }
    gates.push(g);
    assert(gate_views(gates@) =~= g0 + term(row as nat, n as nat, w0 as nat));
}

/// The bit that a table token spells.
pub open spec fn bit_value(t: Seq<char>) -> Option<u8> {
    if t == seq!['0'] {
        Some(0u8)
    } else if t == seq!['1'] {
        Some(1u8)
    } else {
        None
    }
}

/// The bits read from the tokens `toks[2..]`, in reading order.
pub open spec fn read_bits(toks: Seq<Seq<char>>) -> Seq<u8> {
    Seq::new((toks.len() - 2) as nat, |k: int| bit_value(toks[k + 2])->0)
}

/// `s` back to front.
pub open spec fn reversed(s: Seq<u8>) -> Seq<u8> {
    Seq::new(s.len(), |k: int| s[s.len() - 1 - k])
}

/// The id, row count and output bits of a table line split into tokens
/// `id width bit_0 .. bit_(width - 1)`, or why the line is rejected. Row 0 of
/// the table is the last bit read: the bits are stored in reverse.
pub open spec fn lut_fields(toks: Seq<Seq<char>>) -> Result<(usize, usize, Seq<u8>), ParseError> {
    if toks.len() < 2 {
        Err(ParseError::MissingField)
    } else if number(toks[0]) is None || number(toks[1]) is None {
        Err(ParseError::BadNumber)
    } else if exists|k: int| 2 <= k < toks.len() && (#[trigger] bit_value(toks[k])) is None {
        Err(ParseError::BadBit)
    } else if toks.len() - 2 != number(toks[1])->0 {
        Err(ParseError::BitCount)
    } else {
        Ok((number(toks[0])->0, number(toks[1])->0, reversed(read_bits(toks))))
    }
}

/// A lookup table: an id, the declared row count, the output bit of each row
/// (row 0 first) and its input wires.
#[derive(Clone, Debug)]
pub struct LUT {
    pub id: usize,
    pub table: Vec<u8>,
    pub width: usize,
    pub inputs: Vec<usize>,
}

impl LUT {
    /// The table holds one 0/1 bit per declared row, and the inputs are the
    /// wires `0 .. bit_width(width)`.
    pub open spec fn wf(&self) -> bool {
        &&& self.table@.len() == self.width
        &&& forall|k: int| 0 <= k < self.table@.len() ==> #[trigger] self.table@[k] <= 1
        &&& self.inputs@ == input_wires(bit_width(self.width as nat))
    }

    /// The number of input bits.
    pub open spec fn n(&self) -> nat {
        bit_width(self.width as nat)
    }

    /// The circuit that sum-of-products synthesis builds for this table.
    pub open spec fn sop(&self) -> CircuitView {
        CircuitView { id: self.id, inputs: self.inputs@, gates: sop_gates(self.table@, self.n()) }
    }

    /// Wires stay within `usize`: a bound that tables held in memory meet.
    pub open spec fn fits(&self) -> bool {
        self.table@.len() * (self.n() + 2) + self.n() + 2 <= usize::MAX
    }

    /// Reads a table line `id width bit_0 .. bit_(width - 1)`.
    pub fn new(line: &str) -> (r: Result<LUT, ParseError>)
        ensures
            r is Ok ==> lut_fields(tokens(line@)) == Ok::<_, ParseError>((r->Ok_0.id, r->Ok_0.width, r->Ok_0.table@)),
            r is Ok ==> r->Ok_0.wf(),
            r is Err ==> lut_fields(tokens(line@)) == Err::<(usize, usize, Seq<u8>), _>(r->Err_0),
    {
        let chars = chars_of(line);
        LUT::from_chars(&chars)
    }

    /// Reads a table line given as characters.
    pub fn from_chars(line: &Vec<char>) -> (r: Result<LUT, ParseError>)
        ensures
            r is Ok ==> lut_fields(tokens(line@)) == Ok::<_, ParseError>((r->Ok_0.id, r->Ok_0.width, r->Ok_0.table@)),
            r is Ok ==> r->Ok_0.wf(),
            r is Err ==> lut_fields(tokens(line@)) == Err::<(usize, usize, Seq<u8>), _>(r->Err_0),
    {
        let toks = split_tokens(line);
        let ghost tv = tokens(line@);
        assert(forall|k: int| 0 <= k < toks@.len() ==> #[trigger] toks@[k]@ == tv[k]);
        if toks.len() < 2 {
            return Err(ParseError::MissingField);
        }
        let id = match parse_number(&toks[0]) {
            Some(v) => v,
            None => { return Err(ParseError::BadNumber); },
        };
        let width = match parse_number(&toks[1]) {
            Some(v) => v,
            None => { return Err(ParseError::BadNumber); },
        };
        assert(toks@[0]@ == tv[0] && toks@[1]@ == tv[1]);
        assert(number(tv[0]) == Some(id) && number(tv[1]) == Some(width));
        let mut table: Vec<u8> = Vec::new();
        let mut k: usize = 2;
        while k < toks.len()
            invariant
                2 <= k <= toks@.len(),
                tv == tokens(line@),
                toks@.len() == tv.len(),
                forall|j: int| 0 <= j < toks@.len() ==> #[trigger] toks@[j]@ == tv[j],
                forall|j: int| 2 <= j < k ==> (#[trigger] bit_value(tv[j])) is Some,
                number(tv[0]) == Some(id) && number(tv[1]) == Some(width),
                table@ == Seq::new((k - 2) as nat, |j: int| bit_value(tv[j + 2])->0),
                forall|q: int| 0 <= q < table@.len() ==> #[trigger] table@[q] <= 1,
            decreases toks@.len() - k,
        {
            let t = &toks[k];
            assert(t@ == tv[k as int]);
            if t.len() == 1 && t[0] == '0' {
                assert(t@ =~= seq!['0']);
                table.push(0);
            } else if t.len() == 1 && t[0] == '1' {
                assert(t@ =~= seq!['1']);
                table.push(1);
            } else {
                assert(bit_value(tv[k as int]) is None);
                return Err(ParseError::BadBit);
            }
            k = k + 1;
            assert(table@ =~= Seq::new((k - 2) as nat, |j: int| bit_value(tv[j + 2])->0));
        }
        if toks.len() - 2 != width {
            return Err(ParseError::BitCount);
        }
        assert(table@ =~= read_bits(tv));
        let mut rev: Vec<u8> = Vec::new();
        let mut j: usize = 0;
        while j < table.len()
            invariant
                j <= table@.len(),
                rev@ == Seq::new(j as nat, |q: int| table@[table@.len() - 1 - q]),
                forall|q: int| 0 <= q < table@.len() ==> #[trigger] table@[q] <= 1,
            decreases table@.len() - j,
        {
            rev.push(table[table.len() - 1 - j]);
            j = j + 1;
            assert(rev@ =~= Seq::new(j as nat, |q: int| table@[table@.len() - 1 - q]));
        }
        let table = rev;
        let n = bits_for_rows(width);
        let mut inputs: Vec<usize> = Vec::new();
        let mut i: usize = 0;
        while i < n
            invariant
                i <= n,
                inputs@ == input_wires(i as nat),
            decreases n - i,
        {
            inputs.push(i);
            i = i + 1;
            assert(inputs@ =~= input_wires(i as nat));
        }
        Ok(LUT { id, table, width, inputs })
    }

    /// Whether the synthesized circuit's wires fit in `usize`.
    pub fn check_fits(&self) -> (r: bool)
        requires
            self.wf(),
        ensures
            r == self.fits(),
    {
        let n: usize = self.inputs.len();
        let per: usize = match n.checked_add(2) {
            Some(v) => v,
            None => { return false; },
        };
        let prod: usize = match self.table.len().checked_mul(per) {
            Some(v) => v,
            None => { return false; },
        };
        match prod.checked_add(per) {
            Some(_) => true,
            None => false,
        }
    }

    /// Sum-of-products synthesis: one product term per row whose bit is 1,
    /// ORed together into the circuit's output, the last gate.
    pub fn to_circuit(&self) -> (r: Circuit)
        requires
            self.wf(),
            self.fits(),
        ensures
            r@ == self.sop(),
            crate::unify::local_shape(r@),
    {
        let n: usize = self.inputs.len();
        let ghost t = self.table@;
        let mut gates: Vec<LogicGate> = Vec::new();
        let mut outs: Vec<usize> = Vec::new();
        let mut i: usize = 0;
        assert(gate_views(gates@) =~= terms(t, n as nat, 0));
        while i < self.table.len()
            invariant
                self.wf(),
                self.fits(),
                t == self.table@,
                n == self.n(),
                i <= t.len(),
                gate_views(gates@) == terms(t, n as nat, i as nat),
                outs@ == term_wires(t, n as nat, i as nat),
                gates@.len() == terms(t, n as nat, i as nat).len(),
            decreases t.len() - i,
        {
            proof {
                lemma_terms_len(t, n as nat, i as nat);
                assert((i + 1) * (n + 2) <= t.len() * (n + 2)) by (nonlinear_arith)
                    requires i < t.len();
                assert(i * (n + 2) + (n + 2) == (i + 1) * (n + 2)) by (nonlinear_arith);
                lemma_terms_len(t, n as nat, (i + 1) as nat);
            }
            if self.table[i] == 1 {
                push_term(&mut gates, i, n);
                assert(gates@.len() == gate_views(gates@).len());
                outs.push(n + gates.len() - 1);
            }
            i = i + 1;
        }
        proof {
            lemma_terms_len(t, n as nat, t.len());
        }
        let w: usize = n + gates.len();
        let last = if outs.len() == 0 {
            LogicGate::new(GateType::ZERO, Vec::new(), w)
        } else {
            LogicGate::new(GateType::OR, outs, w)
        };
        proof { lemma_gate_views_push(gates@, last); }
        gates.push(last);
        let inputs = self.inputs.clone();
        assert(inputs@ =~= self.inputs@);
        proof { crate::sop_sim::lemma_sop_local(*self); }
        Circuit { id: self.id, inputs, gates }
    }
}

} // verus!
