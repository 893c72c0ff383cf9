//! A circuit of AND, OR and XOR gates on named wires. The first part lets the
//! circuit settle and reads the number on the wires whose names begin with
//! `z`. The second part takes the circuit for an adder of 45 bits with some
//! gate outputs swapped, and names the swapped wires.
use vstd::prelude::*;
use vstd::string::StringSliceAdditionalSpecFns;
use vstd::utf8::encode_utf8;
use crate::text::{
    views, lines_of, lines, split_seq, split, split_once_seq, split_once, trimmed, trim, as_u8,
    parse_u8, contains_seq, find, find_from, same_bytes, copy_range, sorted_names, sort_names,
    decimal_digits, format_u128, joined_with, join_with, to_text, lemma_views_push, position,
    find_name,
};

verus! {

/// What a gate computes.
#[derive(Clone, Copy, Debug)]
pub enum Operator {
    And,
    Or,
    Xor,
}

/// A gate: the names of its two input wires, what it computes, and the name
/// of its output wire.
#[derive(Debug)]
pub struct Gate {
    pub in1: Vec<u8>,
    pub in2: Vec<u8>,
    pub operator: Operator,
    pub out: Vec<u8>,
}

/// A gate as the contracts see it.
pub struct GateView {
    pub in1: Seq<u8>,
    pub in2: Seq<u8>,
    pub operator: Operator,
    pub out: Seq<u8>,
}

impl View for Gate {
    type V = GateView;

    open spec fn view(&self) -> GateView {
        GateView { in1: self.in1@, in2: self.in2@, operator: self.operator, out: self.out@ }
    }
}

/// The views of the gates.
pub open spec fn gate_views(v: Seq<Gate>) -> Seq<GateView> {
    Seq::new(v.len(), |i: int| v[i]@)
}

/// A gate of a circuit that has settled: the names of its two input wires,
/// what it computes, the name of its output wire, and what it has put out,
/// if it has fired.
#[derive(Debug)]
pub struct Gate1 {
    pub wires: (Vec<u8>, Vec<u8>),
    pub operator: Operator,
    pub output_wire: Vec<u8>,
    pub output_value: Option<u32>,
}

/// Such a gate as the contracts see it.
pub struct Gate1View {
    pub wires: (Seq<u8>, Seq<u8>),
    pub operator: Operator,
    pub output_wire: Seq<u8>,
    pub output_value: Option<u32>,
}

impl View for Gate1 {
    type V = Gate1View;

    open spec fn view(&self) -> Gate1View {
        Gate1View {
            wires: (self.wires.0@, self.wires.1@),
            operator: self.operator,
            output_wire: self.output_wire@,
            output_value: self.output_value,
        }
    }
}

/// The views of such gates.
pub open spec fn gate1_views(v: Seq<Gate1>) -> Seq<Gate1View> {
    Seq::new(v.len(), |i: int| v[i]@)
}

/// A gate together with what it has put out.
pub open spec fn with_output(g: GateView, value: Option<u32>) -> Gate1View {
    Gate1View { wires: (g.in1, g.in2), operator: g.operator, output_wire: g.out, output_value: value }
}

/// The gates in their order, each with what it has put out.
pub open spec fn with_outputs(gates: Seq<GateView>, outs: Seq<Option<u32>>) -> Seq<Gate1View> {
    Seq::new(
        gates.len(),
        |i: int|
            with_output(
                gates[i],
                if i < outs.len() {
                    outs[i]
                } else {
                    None
                },
            ),
    )
}

/// What a gate puts out for the inputs `a` and `b`, bit by bit.
pub open spec fn applied(op: Operator, a: u8, b: u8) -> u8 {
    match op {
        Operator::And => a & b,
        Operator::Or => a | b,
        Operator::Xor => a ^ b,
    }
}

/// What a gate puts out for the inputs `val1` and `val2`, bit by bit.
pub fn match_operator(operator: Operator, val1: u8, val2: u8) -> (r: u8)
    ensures
        r == applied(operator, val1, val2),
{
    match operator {
        Operator::And => val1 & val2,
        Operator::Or => val1 | val2,
        Operator::Xor => val1 ^ val2,
    }
}

/// `" AND "`
pub open spec fn and_word() -> Seq<u8> {
    seq![32u8, 65u8, 78u8, 68u8, 32u8]
}

/// `" OR "`
pub open spec fn or_word() -> Seq<u8> {
    seq![32u8, 79u8, 82u8, 32u8]
}

/// `" XOR "`
pub open spec fn xor_word() -> Seq<u8> {
    seq![32u8, 88u8, 79u8, 82u8, 32u8]
}

/// `"->"`
pub open spec fn arrow() -> Seq<u8> {
    seq![45u8, 62u8]
}

/// The wire and the value that a line of the first section gives: a name,
/// a colon, a number below 256.
pub open spec fn wire_of(line: Seq<u8>) -> Option<(Seq<u8>, u8)> {
    let f = split_seq(line, seq![58u8]);
    if f.len() < 2 {
        None
    } else {
        match as_u8(trimmed(f[1])) {
            Some(v) => Some((f[0], v)),
            None => None,
        }
    }
}

/// The two operands of an expression around the operator's word.
pub open spec fn operands(expr: Seq<u8>, word: Seq<u8>) -> Option<(Seq<u8>, Seq<u8>)> {
    let w = split_seq(expr, word);
    if w.len() < 2 {
        None
    } else {
        Some((w[0], w[1]))
    }
}

/// What gate a line of the second section describes: two operands with
/// an operator's word between, an arrow, the output's name.
pub open spec fn gate_of(line: Seq<u8>) -> Option<GateView> {
    let parts = split_seq(line, arrow());
    if parts.len() < 2 {
        None
    } else {
        let expr = trimmed(parts[0]);
        let out = trimmed(parts[1]);
        let op = if contains_seq(expr, and_word()) {
            Some((Operator::And, and_word()))
        } else if contains_seq(expr, or_word()) {
            Some((Operator::Or, or_word()))
        } else if contains_seq(expr, xor_word()) {
            Some((Operator::Xor, xor_word()))
        } else {
            None
        };
        match op {
            None => None,
            Some(o) => match operands(expr, o.1) {
                None => None,
                Some(w) => Some(GateView { in1: w.0, in2: w.1, operator: o.0, out: out }),
            },
        }
    }
}

/// The wires and values of the lines. `None` where a line gives none.
pub open spec fn wires_of(ls: Seq<Seq<u8>>) -> Option<Seq<(Seq<u8>, u8)>>
    decreases ls.len(),
{
    if ls.len() == 0 {
        Some(seq![])
    } else {
        match (wire_of(ls[0]), wires_of(ls.drop_first())) {
            (Some(w), Some(rest)) => Some(seq![w] + rest),
            _ => None,
        }
    }
}

/// The gates of the lines. `None` where a line describes none.
pub open spec fn gates_of(ls: Seq<Seq<u8>>) -> Option<Seq<GateView>>
    decreases ls.len(),
{
    if ls.len() == 0 {
        Some(seq![])
    } else {
        match (gate_of(ls[0]), gates_of(ls.drop_first())) {
            (Some(g), Some(rest)) => Some(seq![g] + rest),
            _ => None,
        }
    }
}

/// A table of wires: names, each once, and the value on each.
pub struct Table {
    pub names: Seq<Seq<u8>>,
    pub values: Seq<u8>,
}

/// The value on the wire `name`, if the table has it.
pub open spec fn probe(t: Table, name: Seq<u8>) -> Option<u8> {
    let p = position(t.names, name);
    if 0 <= p < t.names.len() && p < t.values.len() {
        Some(t.values[p])
    } else {
        None
    }
}

/// The table with `v` on the wire `name`.
pub open spec fn stored(t: Table, name: Seq<u8>, v: u8) -> Table {
    let p = position(t.names, name);
    if 0 <= p < t.names.len() && p < t.values.len() {
        Table { names: t.names, values: t.values.update(p, v) }
    } else {
        Table { names: t.names.push(name), values: t.values.push(v) }
    }
}

/// The table that a list of wires and values gives, later entries winning.
pub open spec fn table_of(ws: Seq<(Seq<u8>, u8)>, t: Table) -> Table
    decreases ws.len(),
{
    if ws.len() == 0 {
        t
    } else {
        table_of(ws.drop_first(), stored(t, ws[0].0, ws[0].1))
    }
}

/// One pass over the gates from the `i`-th on: each gate that has not fired
/// yet and finds both its inputs in the table fires, and its output goes into
/// the table. With the table goes the record of what the gates have put
/// out, and whether one fired in this pass.
pub open spec fn swept(
    gates: Seq<GateView>,
    t: Table,
    outs: Seq<Option<u32>>,
    i: int,
    progress: bool,
) -> (Table, Seq<Option<u32>>, bool)
    decreases gates.len() - i,
{
    if 0 <= i < gates.len() && i < outs.len() {
        if outs[i] is Some {
            swept(gates, t, outs, i + 1, progress)
        } else {
            match (probe(t, gates[i].in1), probe(t, gates[i].in2)) {
                (Some(a), Some(b)) => swept(
                    gates,
                    stored(t, gates[i].out, applied(gates[i].operator, a, b)),
                    outs.update(i, Some(applied(gates[i].operator, a, b) as u32)),
                    i + 1,
                    true,
                ),
                _ => swept(gates, t, outs, i + 1, progress),
            }
        }
    } else {
        (t, outs, progress)
    }
}

/// Passes over the gates, at most `passes` of them, until one in which no
/// gate fires: the table then, and what each gate has put out.
pub open spec fn settled(gates: Seq<GateView>, t: Table, outs: Seq<Option<u32>>, passes: nat) -> (
    Table,
    Seq<Option<u32>>,
)
    decreases passes,
{
    if passes == 0 {
        (t, outs)
    } else {
        let s = swept(gates, t, outs, 0, false);
        if s.2 {
            settled(gates, s.0, s.1, (passes - 1) as nat)
        } else {
            (s.0, s.1)
        }
    }
}

/// The names, from the `i`-th on, that begin with `prefix`.
pub open spec fn names_with(names: Seq<Seq<u8>>, prefix: u8, i: int) -> Seq<Seq<u8>>
    decreases names.len() - i,
{
    if 0 <= i < names.len() {
        (if names[i].len() > 0 && names[i][0] == prefix {
            seq![names[i]]
        } else {
            seq![]
        }) + names_with(names, prefix, i + 1)
    } else {
        seq![]
    }
}

/// The values on the wires `keys`, in decimal digits, one after another.
pub open spec fn digits_on(t: Table, keys: Seq<Seq<u8>>, i: int) -> Seq<u8>
    decreases keys.len() - i,
{
    if 0 <= i < keys.len() {
        (match probe(t, keys[i]) {
            Some(v) => decimal_digits(v as nat),
            None => decimal_digits(0),
        }) + digits_on(t, keys, i + 1)
    } else {
        seq![]
    }
}

/// Every byte is a `0` or a `1`.
pub open spec fn all_binary(s: Seq<u8>) -> bool {
    forall|i: int| 0 <= i < s.len() ==> (#[trigger] s[i] == 48 || s[i] == 49)
}

/// The number that a run of binary digits denotes.
pub open spec fn binary_value(s: Seq<u8>) -> nat
    decreases s.len(),
{
    if s.len() == 0 {
        0
    } else {
        binary_value(s.drop_last()) * 2 + (s.last() - 48) as nat
    }
}

/// The number that the digits denote in base two, if they are binary digits,
/// at least one, and the number fits in 128 bits; otherwise 0.
pub open spec fn number_of(bits: Seq<u8>) -> u128 {
    if bits.len() > 0 && all_binary(bits) && binary_value(bits) <= u128::MAX {
        binary_value(bits) as u128
    } else {
        0
    }
}

/// The wires whose names begin with `prefix`, from the last in the
/// dictionary to the first, and the digits of their values in that order.
pub open spec fn read_out(t: Table, prefix: u8) -> (Seq<Seq<u8>>, Seq<u8>) {
    let keys = sorted_names(names_with(t.names, prefix, 0)).reverse();
    (keys, digits_on(t, keys, 0))
}

/// The gates that the text describes, in its order, each with what it has
/// put out once the circuit has settled, and the table of all wires then.
pub open spec fn solved(s: Seq<u8>) -> Option<(Seq<Gate1View>, Table)> {
    match split_once_seq(s, seq![10u8, 10u8]) {
        None => None,
        Some(halves) => match (wires_of(lines_of(halves.0)), gates_of(lines_of(halves.1))) {
            (Some(ws), Some(gates)) => {
                let end = settled(
                    gates,
                    table_of(ws, Table { names: seq![], values: seq![] }),
                    Seq::new(gates.len(), |i: int| None::<u32>),
                    gates.len() + 1,
                );
                Some((with_outputs(gates, end.1), end.0))
            },
            _ => None,
        },
    }
}

/// The answer to the first part for the text `s`.
pub open spec fn answer_one(s: Seq<u8>) -> Option<u128> {
    match solved(s) {
        None => None,
        Some(end) => Some(number_of(read_out(end.1, 122).1)),
    }
}

/// The wires of a circuit and the values on them.
pub struct Wires {
    pub names: Vec<Vec<u8>>,
    pub values: Vec<u8>,
}

impl View for Wires {
    type V = Table;

    open spec fn view(&self) -> Table {
        Table { names: views(self.names@), values: self.values@ }
    }
}

impl Wires {
    /// A table without wires.
    pub fn new() -> (w: Wires)
        ensures
            w@ == (Table { names: seq![], values: seq![] }),
    {
        let w = Wires { names: Vec::new(), values: Vec::new() };
        assert(views(w.names@) =~= Seq::<Seq<u8>>::empty());
        w
    }

    /// The value on the wire `name`, if there is such a wire.
    pub fn get(&self, name: &[u8]) -> (v: Option<u8>)
        ensures
            v == probe(self@, name@),
    {
        let p = find_name(&self.names, name);
        if p < self.names.len() && p < self.values.len() {
            Some(self.values[p])
        } else {
            None
        }
    }

    /// Puts `v` on the wire `name`.
    pub fn insert(&mut self, name: &[u8], v: u8)
        ensures
            final(self)@ == stored(old(self)@, name@, v),
    {
        let p = find_name(&self.names, name);
        if p < self.names.len() && p < self.values.len() {
            self.values.set(p, v);
        } else {
            let copy = copy_range(name, 0, name.len());
            assert(copy@ =~= name@);
            proof {
                lemma_views_push(self.names@, copy);
            }
            self.names.push(copy);
            self.values.push(v);
        }
    }
}

fn parse_wire(line: &Vec<u8>) -> (out: Option<(Vec<u8>, u8)>)
    ensures
        match (wire_of(line@), out) {
            (Some(w), Some(o)) => o.0@ == w.0 && o.1 == w.1,
            (None, None) => true,
            _ => false,
        },
{
    let colon: Vec<u8> = vec![58u8];
    assert(colon@ =~= seq![58u8]);
    let mut f = split(line.as_slice(), colon.as_slice());
    assert(views(f@).len() == f@.len());
    if f.len() < 2 {
        return None;
    }
    assert(views(f@)[0] == f@[0]@);
    assert(views(f@)[1] == f@[1]@);
    let t = trim(f[1].as_slice());
    match parse_u8(t.as_slice()) {
        Some(v) => {
            let name = copy_range(f[0].as_slice(), 0, f[0].len());
            assert(name@ =~= f@[0]@);
            Some((name, v))
        },
        None => None,
    }
}

fn split_operands(expr: &Vec<u8>, word: &Vec<u8>) -> (out: Option<(Vec<u8>, Vec<u8>)>)
    requires
        word@.len() > 0,
    ensures
        match (operands(expr@, word@), out) {
            (Some(w), Some(o)) => o.0@ == w.0 && o.1@ == w.1,
            (None, None) => true,
            _ => false,
        },
{
    let w = split(expr.as_slice(), word.as_slice());
    assert(views(w@).len() == w@.len());
    if w.len() < 2 {
        return None;
    }
    assert(views(w@)[0] == w@[0]@);
    assert(views(w@)[1] == w@[1]@);
    let a = copy_range(w[0].as_slice(), 0, w[0].len());
    let b = copy_range(w[1].as_slice(), 0, w[1].len());
    assert(a@ =~= w@[0]@);
    assert(b@ =~= w@[1]@);
    Some((a, b))
}

fn parse_gate(line: &Vec<u8>) -> (out: Option<Gate>)
    ensures
        match gate_of(line@) {
            Some(g) => out is Some && out->0@ == g,
            None => out is None,
        },
{
    let arrow_word: Vec<u8> = vec![45u8, 62u8];
    assert(arrow_word@ =~= arrow());
    let parts = split(line.as_slice(), arrow_word.as_slice());
    assert(views(parts@).len() == parts@.len());
    if parts.len() < 2 {
        return None;
    }
    assert(views(parts@)[0] == parts@[0]@);
    assert(views(parts@)[1] == parts@[1]@);
    let expr = trim(parts[0].as_slice());
    let out = trim(parts[1].as_slice());
    let and_w: Vec<u8> = vec![32u8, 65u8, 78u8, 68u8, 32u8];
    assert(and_w@ =~= and_word());
    let or_w: Vec<u8> = vec![32u8, 79u8, 82u8, 32u8];
    assert(or_w@ =~= or_word());
    let xor_w: Vec<u8> = vec![32u8, 88u8, 79u8, 82u8, 32u8];
    assert(xor_w@ =~= xor_word());
    let (operator, word) = if find(expr.as_slice(), and_w.as_slice(), 0).is_some() {
        (Operator::And, and_w)
    } else if find(expr.as_slice(), or_w.as_slice(), 0).is_some() {
        (Operator::Or, or_w)
    } else if find(expr.as_slice(), xor_w.as_slice(), 0).is_some() {
        (Operator::Xor, xor_w)
    } else {
        return None;
    };
    match split_operands(&expr, &word) {
        Some((in1, in2)) => Some(Gate { in1, in2, operator, out }),
        None => None,
    }
}

#[verifier::loop_isolation(false)]
fn parse_wires(ls: &Vec<Vec<u8>>) -> (out: Option<Wires>)
    ensures
        match wires_of(views(ls@)) {
            Some(ws) => out is Some && out->0@ == table_of(
                ws,
                Table { names: seq![], values: seq![] },
            ),
            None => out is None,
        },
{
    let ghost all = views(ls@);
    let ghost empty = Table { names: seq![], values: seq![] };
    let mut table = Wires::new();
    let mut i: usize = 0;
    assert(all.skip(0) =~= all);
    while i < ls.len()
        invariant
            0 <= i <= ls@.len(),
            match wires_of(all.skip(i as int)) {
                Some(rest) => wires_of(all) is Some && table_of(rest, table@) == table_of(
                    wires_of(all)->0,
                    empty,
                ),
                None => wires_of(all) is None,
            },
        decreases ls@.len() - i,
    {
        assert(all.skip(i as int)[0] == ls@[i as int]@);
        assert(all.skip(i as int).drop_first() =~= all.skip(i + 1));
        match parse_wire(&ls[i]) {
            None => {
                return None;
            },
            Some((name, v)) => {
                proof {
                    match wires_of(all.skip(i + 1)) {
                        Some(rest) => {
                            let here = seq![(name@, v)] + rest;
                            assert(here[0] == (name@, v));
                            assert(here.drop_first() =~= rest);
                        },
                        None => {},
                    }
                }
                table.insert(name.as_slice(), v);
            },
        }
        i += 1;
    }
    Some(table)
}

#[verifier::loop_isolation(false)]
fn parse_gates(ls: &Vec<Vec<u8>>) -> (out: Option<Vec<Gate>>)
    ensures
        match gates_of(views(ls@)) {
            Some(gs) => out is Some && gate_views(out->0@) == gs,
            None => out is None,
        },
{
    let ghost all = views(ls@);
    let mut acc: Vec<Gate> = Vec::new();
    let mut i: usize = 0;
    assert(all.skip(0) =~= all);
    assert(gate_views(acc@) =~= Seq::<GateView>::empty());
    while i < ls.len()
        invariant
            0 <= i <= ls@.len(),
            match gates_of(all.skip(i as int)) {
                Some(rest) => gates_of(all) == Some(gate_views(acc@) + rest),
                None => gates_of(all) is None,
            },
        decreases ls@.len() - i,
    {
        assert(all.skip(i as int)[0] == ls@[i as int]@);
        assert(all.skip(i as int).drop_first() =~= all.skip(i + 1));
        match parse_gate(&ls[i]) {
            None => {
                return None;
            },
            Some(g) => {
                proof {
                    match gates_of(all.skip(i + 1)) {
                        Some(rest) => {
                            assert(gate_views(acc@.push(g)) + rest =~= gate_views(acc@) + (seq![
                                g@,
                            ] + rest));
                        },
                        None => {},
                    }
                }
                acc.push(g);
            },
        }
        i += 1;
    }
    assert(gate_views(acc@) + Seq::<GateView>::empty() =~= gate_views(acc@));
    Some(acc)
}

/// Lets the gates fire until no more does. Gives the table then and what
/// each gate has put out.
#[verifier::loop_isolation(false)]
fn settle(gates: &Vec<Gate>, wires: Wires) -> (out: (Wires, Vec<Option<u32>>))
    ensures
        (out.0@, out.1@) == settled(
            gate_views(gates@),
            wires@,
            Seq::new(gates@.len(), |i: int| None::<u32>),
            gates@.len() + 1,
        ),
{
    let ghost gs = gate_views(gates@);
    let mut table = wires;
    let mut outs: Vec<Option<u32>> = Vec::new();
    while outs.len() < gates.len()
        invariant
            outs@.len() <= gates@.len(),
            forall|k: int| 0 <= k < outs@.len() ==> outs@[k] is None,
        decreases gates@.len() - outs@.len(),
    {
        outs.push(None);
    }
    assert(outs@ =~= Seq::new(gates@.len(), |i: int| None::<u32>));
    let ghost goal = settled(gs, wires@, outs@, gates@.len() + 1);
    let mut passes: usize = 0;
    loop
        invariant
            0 <= passes <= gates@.len(),
            outs@.len() == gates@.len(),
            settled(gs, table@, outs@, (gates@.len() + 1 - passes) as nat) == goal,
        decreases gates@.len() + 1 - passes,
    {
        let ghost t0 = table@;
        let ghost f0 = outs@;
        let mut progress = false;
        let mut i: usize = 0;
        while i < gates.len()
            invariant
                0 <= i <= gates@.len(),
                outs@.len() == gates@.len(),
                swept(gs, table@, outs@, i as int, progress) == swept(gs, t0, f0, 0, false),
            decreases gates@.len() - i,
        {
            assert(gs[i as int] == gates@[i as int]@);
            if outs[i].is_none() {
                let g = &gates[i];
                match (table.get(g.in1.as_slice()), table.get(g.in2.as_slice())) {
                    (Some(a), Some(b)) => {
                        let v = match_operator(g.operator, a, b);
                        table.insert(g.out.as_slice(), v);
                        let wide: u32 = v as u32;
                        outs.set(i, Some(wide));
                        progress = true;
                    },
                    _ => {},
                }
            }
            i += 1;
        }
        if !progress {
            return (table, outs);
        }
        if passes == gates.len() {
            assert(settled(gs, table@, outs@, 0) == (table@, outs@));
            return (table, outs);
        }
        passes += 1;
    }
}

/// Reads the circuit that the text describes and lets it settle. Gives the
/// gates in the order of the text, each with what it has put out, and the
/// values on all wires.
#[verifier::loop_isolation(false)]
pub fn solve_gates(input: &[u8]) -> (out: Option<(Vec<Gate1>, Wires)>)
    ensures
        match (solved(input@), out) {
            (Some(end), Some(o)) => gate1_views(o.0@) == end.0 && o.1@ == end.1,
            (None, None) => true,
            _ => false,
        },
{
    let pat: Vec<u8> = vec![10u8, 10u8];
    assert(pat@ =~= seq![10u8, 10u8]);
    let (top, bottom) = match split_once(input, pat.as_slice()) {
        Some(p) => p,
        None => {
            return None;
        },
    };
    let wire_lines = lines(top.as_slice());
    let gate_lines = lines(bottom.as_slice());
    let wires = match parse_wires(&wire_lines) {
        Some(w) => w,
        None => {
            return None;
        },
    };
    let gates = match parse_gates(&gate_lines) {
        Some(g) => g,
        None => {
            return None;
        },
    };
    let (table, outs) = settle(&gates, wires);
    let ghost gs = gate_views(gates@);
    let mut done: Vec<Gate1> = Vec::new();
    let mut i: usize = 0;
    while i < gates.len()
        invariant
            0 <= i <= gates@.len(),
            done@.len() == i,
            forall|k: int| 0 <= k < i ==> (#[trigger] done@[k])@ == with_outputs(gs, outs@)[k],
        decreases gates@.len() - i,
    {
        let g = &gates[i];
        assert(gs[i as int] == gates@[i as int]@);
        let value = if i < outs.len() {
            outs[i]
        } else {
            None
        };
        done.push(
            Gate1 {
                wires: (copy_name(&g.in1), copy_name(&g.in2)),
                operator: g.operator,
                output_wire: copy_name(&g.out),
                output_value: value,
            },
        );
        i += 1;
    }
    assert(gate1_views(done@) =~= with_outputs(gs, outs@));
    Some((done, table))
}

proof fn lemma_binary_value_prefix(s: Seq<u8>, i: int)
    requires
        0 <= i <= s.len(),
        all_binary(s),
    ensures
        binary_value(s.take(i)) <= binary_value(s),
    decreases s.len() - i,
{
    if i < s.len() {
        lemma_binary_value_prefix(s, i + 1);
        assert(s.take(i + 1).drop_last() == s.take(i));
        assert(s[i] == 48 || s[i] == 49);
    } else {
        assert(s.take(i) == s);
    }
}

/// Reads binary digits as a number; 0 where they are none.
#[verifier::loop_isolation(false)]
fn read_binary(bits: &Vec<u8>) -> (out: u128)
    ensures
        out == number_of(bits@),
{
    if bits.len() == 0 {
        return 0;
    }
    let mut acc: u128 = 0;
    let mut i: usize = 0;
    assert(bits@.take(0) =~= Seq::<u8>::empty());
    while i < bits.len()
        invariant
            0 <= i <= bits@.len(),
            all_binary(bits@.take(i as int)),
            acc == binary_value(bits@.take(i as int)),
        decreases bits@.len() - i,
    {
        let b = bits[i];
        if b != 48 && b != 49 {
            assert(!(bits@[i as int] == 48 || bits@[i as int] == 49));
            return 0;
        }
        proof {
            let t = bits@.take(i + 1);
            assert(t.drop_last() =~= bits@.take(i as int));
            assert(t.last() == b);
            assert forall|k: int| 0 <= k < t.len() implies (#[trigger] t[k] == 48 || t[k] == 49) by {
                if k < t.len() - 1 {
                    assert(bits@.take(i as int)[k] == t[k]);
                }
            }
        }
        let next = match acc.checked_mul(2) {
            Some(m) => m.checked_add((b - 48) as u128),
            None => None,
        };
        match next {
            Some(v) => {
                acc = v;
            },
            None => {
                proof {
                    if all_binary(bits@) {
                        lemma_binary_value_prefix(bits@, i + 1);
                    }
                }
                return 0;
            },
        }
        i += 1;
    }
    assert(bits@.take(i as int) =~= bits@);
    acc
}

/// The wires whose names begin with `prefix`, from the last in the
/// dictionary to the first, and the digits of their values in that order.
#[verifier::loop_isolation(false)]
pub fn binary_from_wires(wires: &Wires, prefix: u8) -> (out: (Vec<Vec<u8>>, Vec<u8>))
    ensures
        views(out.0@) == read_out(wires@, prefix).0,
        out.1@ == read_out(wires@, prefix).1,
{
    let ghost names = views(wires.names@);
    let mut chosen: Vec<Vec<u8>> = Vec::new();
    let mut i: usize = 0;
    assert(views(chosen@) =~= Seq::<Seq<u8>>::empty());
    while i < wires.names.len()
        invariant
            0 <= i <= wires.names@.len(),
            views(chosen@) + names_with(names, prefix, i as int) == names_with(names, prefix, 0),
        decreases wires.names@.len() - i,
    {
        let name = &wires.names[i];
        assert(names[i as int] == name@);
        let ghost before = views(chosen@);
        if name.len() > 0 && name[0] == prefix {
            let copy = copy_range(name.as_slice(), 0, name.len());
            assert(copy@ =~= name@);
            proof {
                lemma_views_push(chosen@, copy);
            }
            chosen.push(copy);
            assert(views(chosen@) + names_with(names, prefix, i + 1) =~= before + (seq![name@]
                + names_with(names, prefix, i + 1)));
        } else {
            assert(views(chosen@) + names_with(names, prefix, i + 1) =~= before + (Seq::<
                Seq<u8>,
            >::empty() + names_with(names, prefix, i + 1)));
        }
        i += 1;
    }
    assert(views(chosen@) + Seq::<Seq<u8>>::empty() =~= views(chosen@));
    let sorted = sort_names(&chosen);
    let mut keys: Vec<Vec<u8>> = Vec::new();
    let mut j: usize = sorted.len();
    assert(views(keys@) =~= views(sorted@).reverse().take(0));
    while j > 0
        invariant
            0 <= j <= sorted@.len(),
            views(keys@) == views(sorted@).reverse().take(sorted@.len() - j),
        decreases j,
    {
        j -= 1;
        let copy = copy_range(sorted[j].as_slice(), 0, sorted[j].len());
        assert(copy@ =~= sorted@[j as int]@);
        proof {
            lemma_views_push(keys@, copy);
        }
        keys.push(copy);
        assert(views(keys@) =~= views(sorted@).reverse().take(sorted@.len() - j));
    }
    assert(views(keys@) =~= views(sorted@).reverse());
    let ghost ks = views(keys@);
    let mut digits: Vec<u8> = Vec::new();
    let mut k: usize = 0;
    while k < keys.len()
        invariant
            0 <= k <= keys@.len(),
            digits@ + digits_on(wires@, ks, k as int) == digits_on(wires@, ks, 0),
        decreases keys@.len() - k,
    {
        assert(ks[k as int] == keys@[k as int]@);
        let v = match wires.get(keys[k].as_slice()) {
            Some(v) => v,
            None => 0,
        };
        let mut d = format_u128(v as u128);
        let ghost before = digits@;
        let ghost dd = d@;
        digits.append(&mut d);
        assert(digits@ + digits_on(wires@, ks, k + 1) =~= before + (dd + digits_on(
            wires@,
            ks,
            k + 1,
        )));
        k += 1;
    }
    assert(digits@ + Seq::<u8>::empty() =~= digits@);
    (keys, digits)
}

/// The number on the wires whose names begin with `z`, once the circuit has settled.
pub fn part_one(input: &str) -> (out: Option<u128>)
    ensures
        out == answer_one(input.spec_bytes()),
{
    let (_gates, wires) = match solve_gates(input.as_bytes()) {
        Some(p) => p,
        None => {
            return None;
        },
    };
    let (_keys, z_binary) = binary_from_wires(&wires, 122);
    Some(read_binary(&z_binary))
}

/// The names of the output wires of the gates.
pub open spec fn outs(c: Seq<GateView>) -> Seq<Seq<u8>> {
    Seq::new(c.len(), |i: int| c[i].out)
}

/// The circuit with `g` in it, in the place of whichever gate had its
/// output wire if there was one.
pub open spec fn with_gate(c: Seq<GateView>, g: GateView) -> Seq<GateView> {
    let p = position(outs(c), g.out);
    if 0 <= p < c.len() {
        c.update(p, g)
    } else {
        c.push(g)
    }
}

/// The circuit that a list of gates gives: one gate for each output wire, the
/// last that names it.
pub open spec fn circuit_of(gs: Seq<GateView>, c: Seq<GateView>) -> Seq<GateView>
    decreases gs.len(),
{
    if gs.len() == 0 {
        c
    } else {
        circuit_of(gs.drop_first(), with_gate(c, gs[0]))
    }
}

/// A number as wire names have it: two digits at least.
pub open spec fn two_digits(n: int) -> Seq<u8> {
    if n < 0 {
        seq![45u8] + decimal_digits((-n) as nat)
    } else if n < 10 {
        seq![48u8, (48 + n) as u8]
    } else {
        decimal_digits(n as nat)
    }
}

/// The name of the wire of bit `n` of the number `prefix`.
pub open spec fn wire_name(prefix: u8, n: int) -> Seq<u8> {
    seq![prefix] + two_digits(n)
}

/// The number of bits of the two numbers that the adder adds.
pub const WIDTH: usize = 45;

/// A test input for bit `n`: the bit itself at place `n`, the carry at the
/// place below, 0 elsewhere.
pub open spec fn test_vector(n: int, bit: u8, carry: u8) -> Seq<u8> {
    Seq::new(
        WIDTH as nat,
        |i: int|
            if i == n {
                bit
            } else if n > 0 && i == n - 1 {
                carry
            } else {
                0u8
            },
    )
}

/// The table `t` with the bits on the wires named by `prefix`, from bit `i` on.
pub open spec fn wire_map(prefix: u8, bits: Seq<u8>, t: Table, i: int) -> Table
    decreases bits.len() - i,
{
    if 0 <= i < bits.len() {
        wire_map(prefix, bits, stored(t, wire_name(prefix, i), bits[i]), i + 1)
    } else {
        t
    }
}

/// The inputs that test bit `n` with the bits `x` and `y` and the carry `carry`.
pub open spec fn trial_inputs(n: int, x: u8, y: u8, carry: u8) -> Table {
    wire_map(
        121,
        test_vector(n, y, carry),
        wire_map(120, test_vector(n, x, carry), Table { names: seq![], values: seq![] }, 0),
        0,
    )
}

/// What gate `p` puts out, its inputs traced back through fewer than `depth` gates.
pub open spec fn gate_value(c: Seq<GateView>, inputs: Table, p: int, depth: nat) -> Option<u8>
    decreases depth, 0int,
{
    if depth == 0 || !(0 <= p < c.len()) {
        None
    } else {
        match (
            wire_value(c, inputs, c[p].in1, (depth - 1) as nat),
            wire_value(c, inputs, c[p].in2, (depth - 1) as nat),
        ) {
            (Some(a), Some(b)) => Some(applied(c[p].operator, a, b)),
            _ => None,
        }
    }
}

/// The value on the wire `name`: that of the input of this name, or else
/// what a gate with this output puts out. `None` where no input and no
/// gate has the name, or the value hangs on more than `depth` gates in a row.
pub open spec fn wire_value(c: Seq<GateView>, inputs: Table, name: Seq<u8>, depth: nat) -> Option<
    u8,
>
    decreases depth, 1int,
{
    match probe(inputs, name) {
        Some(v) => Some(v),
        None => {
            let p = position(outs(c), name);
            if 0 <= p < c.len() {
                gate_value(c, inputs, p, depth)
            } else {
                None
            }
        },
    }
}

/// The value on the output wire of each gate, if every one has a value.
pub open spec fn outputs_of(c: Seq<GateView>, inputs: Table) -> Option<Seq<u8>> {
    if forall|i: int| 0 <= i < c.len() ==> (#[trigger] wire_value(c, inputs, c[i].out, c.len())) is Some {
        Some(Seq::new(c.len(), |i: int| wire_value(c, inputs, c[i].out, c.len())->0))
    } else {
        None
    }
}

/// Whether bit `n` of the sum comes out right for the bits `x` and `y` and
/// the carry `carry`. `None` where some wire of the circuit has no value.
pub open spec fn trial(c: Seq<GateView>, n: int, x: u8, y: u8, carry: u8) -> Option<bool> {
    match outputs_of(c, trial_inputs(n, x, y, carry)) {
        None => None,
        Some(vals) => {
            let p = position(outs(c), wire_name(122, n));
            let got = if 0 <= p < c.len() {
                vals[p]
            } else {
                0u8
            };
            Some(got == (x + y + carry) % 2)
        },
    }
}

/// The trials of bit `n` from the `k`-th on, in the order of the numbers
/// `4x + 2y + carry`; bit 0 is tried without a carry.
pub open spec fn trials(c: Seq<GateView>, n: int, k: int) -> Option<bool>
    decreases 8 - k,
{
    if 0 <= k < 8 {
        if n == 0 && k % 2 == 1 {
            trials(c, n, k + 1)
        } else {
            match trial(c, n, (k / 4) as u8, ((k / 2) % 2) as u8, (k % 2) as u8) {
                None => None,
                Some(good) => if good {
                    trials(c, n, k + 1)
                } else {
                    Some(false)
                },
            }
        }
    } else {
        Some(true)
    }
}

/// Whether bit `n` of the sum comes out right in every trial.
pub open spec fn validated(c: Seq<GateView>, n: int) -> Option<bool> {
    if 0 <= n < WIDTH {
        trials(c, n, 0)
    } else {
        None
    }
}

/// This gate is of the kind asked for and has the inputs asked for.
pub open spec fn wanted(
    g: GateView,
    op: Option<Operator>,
    in1: Option<Seq<u8>>,
    in2: Option<Seq<u8>>,
) -> bool {
    &&& (op matches Some(o) ==> g.operator == o)
    &&& (in1 matches Some(a) ==> g.in1 == a || g.in2 == a)
    &&& (in2 matches Some(b) ==> g.in1 == b || g.in2 == b)
}

/// The index of the first gate, from the `i`-th on, that is wanted.
pub open spec fn first_wanted(
    c: Seq<GateView>,
    op: Option<Operator>,
    in1: Option<Seq<u8>>,
    in2: Option<Seq<u8>>,
    i: int,
) -> Option<int>
    decreases c.len() - i,
{
    if 0 <= i < c.len() {
        if wanted(c[i], op, in1, in2) {
            Some(i)
        } else {
            first_wanted(c, op, in1, in2, i + 1)
        }
    } else {
        None
    }
}

/// The output wire of gate number `i`, if there is a number.
pub open spec fn out_of(c: Seq<GateView>, i: Option<int>) -> Option<Seq<u8>> {
    match i {
        Some(p) => Some(c[p].out),
        None => None,
    }
}

/// The names that are among `a1`, `a2` or among `b1`, `b2`, but not both.
pub open spec fn sym_diff(a1: Seq<u8>, a2: Seq<u8>, b1: Seq<u8>, b2: Seq<u8>) -> Seq<Seq<u8>> {
    (if a1 != b1 && a1 != b2 {
        seq![a1]
    } else {
        seq![]
    }) + (if a2 != a1 && a2 != b1 && a2 != b2 {
        seq![a2]
    } else {
        seq![]
    }) + (if b1 != a1 && b1 != a2 {
        seq![b1]
    } else {
        seq![]
    }) + (if b2 != b1 && b2 != a1 && b2 != a2 {
        seq![b2]
    } else {
        seq![]
    })
}

/// The wires to swap so that bit `n` of the sum is wired as a full adder
/// wires it: the XOR of the bit's inputs XORed with the carry from below.
pub open spec fn swap_plan(c: Seq<GateView>, n: int) -> Seq<Seq<u8>> {
    let x0 = Some(wire_name(120, n - 1));
    let y0 = Some(wire_name(121, n - 1));
    let prev_and = first_wanted(c, Some(Operator::And), x0, y0, 0);
    let prev_xor = first_wanted(c, Some(Operator::Xor), x0, y0, 0);
    let m2 = match prev_xor {
        Some(_p) => first_wanted(c, Some(Operator::And), out_of(c, prev_xor), None, 0),
        None => None,
    };
    let m1 = if m2 is Some && prev_and is Some {
        first_wanted(c, Some(Operator::Or), out_of(c, m2), out_of(c, prev_and), 0)
    } else {
        None
    };
    let nxor = first_wanted(
        c,
        Some(Operator::Xor),
        Some(wire_name(120, n)),
        Some(wire_name(121, n)),
        0,
    );
    let zn = if nxor is Some && m1 is Some {
        first_wanted(c, Some(Operator::Xor), out_of(c, nxor), out_of(c, m1), 0)
    } else {
        None
    };
    let z = wire_name(122, n);
    let pz = position(outs(c), z);
    match zn {
        Some(r) => if c[r].out != z {
            seq![z, c[r].out]
        } else {
            seq![]
        },
        None => if 0 <= pz < c.len() && nxor is Some && m1 is Some {
            sym_diff(c[pz].in1, c[pz].in2, c[nxor->0].out, c[m1->0].out)
        } else {
            seq![]
        },
    }
}

/// The circuit with the outputs of the gates that put out `a` and `b`
/// swapped. `None` where one of the two is no gate's output, or they are one wire.
pub open spec fn swapped(c: Seq<GateView>, a: Seq<u8>, b: Seq<u8>) -> Option<Seq<GateView>> {
    let pa = position(outs(c), a);
    let pb = position(outs(c), b);
    if 0 <= pa < c.len() && 0 <= pb < c.len() && pa != pb {
        Some(
            c.update(
                pa,
                GateView { in1: c[pa].in1, in2: c[pa].in2, operator: c[pa].operator, out: b },
            ).update(
                pb,
                GateView { in1: c[pb].in1, in2: c[pb].in2, operator: c[pb].operator, out: a },
            ),
        )
    } else {
        None
    }
}

/// The circuit after the repair of bit `n`: where the plan names two wires,
/// they are swapped.
pub open spec fn repaired_bit(c: Seq<GateView>, n: int) -> Option<Seq<GateView>> {
    let plan = swap_plan(c, n);
    if plan.len() == 2 {
        swapped(c, plan[0], plan[1])
    } else {
        Some(c)
    }
}

/// The wires named by the plans of the bits, from bit `n` up, that do not
/// come out right, each bit repaired before the next is tried.
pub open spec fn repairs(c: Seq<GateView>, n: int, found: Seq<Seq<u8>>) -> Option<Seq<Seq<u8>>>
    decreases WIDTH - n,
{
    if 0 <= n < WIDTH {
        match validated(c, n) {
            None => None,
            Some(good) => if good {
                repairs(c, n + 1, found)
            } else {
                match repaired_bit(c, n) {
                    None => None,
                    Some(c2) => repairs(c2, n + 1, found + swap_plan(c, n)),
                }
            },
        }
    } else {
        Some(found)
    }
}

/// The answer to the second part for the text `s`, as bytes: the names of
/// the swapped wires in the order of the dictionary, with commas between.
pub open spec fn answer_two(s: Seq<u8>) -> Option<Seq<u8>> {
    match split_once_seq(s, seq![10u8, 10u8]) {
        None => None,
        Some(halves) => match (wires_of(lines_of(halves.0)), gates_of(lines_of(halves.1))) {
            (Some(_ws), Some(gates)) => match repairs(circuit_of(gates, seq![]), 0, seq![]) {
                None => None,
                Some(found) => Some(joined_with(sorted_names(found), 44)),
            },
            _ => None,
        },
    }
}

proof fn lemma_gate_views_push(v: Seq<Gate>, g: Gate)
    ensures
        gate_views(v.push(g)) == gate_views(v).push(g@),
{
    assert(gate_views(v.push(g)) =~= gate_views(v).push(g@));
}

/// The index of whichever gate puts out `name`, or the number of gates.
#[verifier::loop_isolation(false)]
pub fn find_gate(circuit: &Vec<Gate>, name: &[u8]) -> (p: usize)
    ensures
        p == position(outs(gate_views(circuit@)), name@),
        p <= circuit@.len(),
{
    let ghost all = outs(gate_views(circuit@));
    let mut i: usize = 0;
    assert(all.skip(0) =~= all);
    while i < circuit.len()
        invariant
            0 <= i <= circuit@.len(),
            position(all, name@) == i + position(all.skip(i as int), name@),
        decreases circuit@.len() - i,
    {
        assert(all.skip(i as int)[0] == circuit@[i as int].out@);
        assert(all.skip(i as int).drop_first() =~= all.skip(i + 1));
        if same_bytes(circuit[i].out.as_slice(), name) {
            return i;
        }
        i += 1;
    }
    i
}

fn insert_gate(circuit: &mut Vec<Gate>, g: Gate)
    ensures
        gate_views(final(circuit)@) == with_gate(gate_views(old(circuit)@), g@),
{
    let p = find_gate(circuit, g.out.as_slice());
    if p < circuit.len() {
        let ghost before = gate_views(circuit@);
        circuit.set(p, g);
        assert(gate_views(circuit@) =~= before.update(p as int, g@));
    } else {
        proof {
            lemma_gate_views_push(circuit@, g);
        }
        circuit.push(g);
    }
}

/// The name of the wire of bit `n` of the number `prefix`.
pub fn make_wire(prefix: u8, n: i32) -> (out: Vec<u8>)
    ensures
        out@ == wire_name(prefix, n as int),
{
    label(prefix, n as i128)
}

fn label(prefix: u8, n: i128) -> (out: Vec<u8>)
    requires
        -0x1_0000_0000_0000_0000 < n < 0x1_0000_0000_0000_0000,
    ensures
        out@ == wire_name(prefix, n as int),
{
    let mut out: Vec<u8> = Vec::new();
    out.push(prefix);
    if n < 0 {
        out.push(45u8);
        let mut d = format_u128((-n) as u128);
        let ghost dd = d@;
        out.append(&mut d);
        assert(out@ =~= seq![prefix] + (seq![45u8] + dd));
    } else if n < 10 {
        out.push(48u8);
        out.push(48u8 + n as u8);
        assert(out@ =~= seq![prefix] + seq![48u8, (48 + n) as u8]);
    } else {
        let mut d = format_u128(n as u128);
        let ghost dd = d@;
        out.append(&mut d);
        assert(out@ =~= seq![prefix] + dd);
    }
    out
}

/// A test input for bit `n`, the lowest bit first.
#[verifier::loop_isolation(false)]
pub fn build_input_vector(n: u8, test_bit: u8, carry: u8) -> (out: Vec<u8>)
    ensures
        out@ == test_vector(n as int, test_bit, carry),
{
    let mut out: Vec<u8> = Vec::new();
    let mut i: usize = 0;
    while i < WIDTH
        invariant
            0 <= i <= WIDTH,
            out@.len() == i,
            forall|k: int| 0 <= k < i ==> out@[k] == test_vector(n as int, test_bit, carry)[k],
        decreases WIDTH - i,
    {
        let v = if i == n as usize {
            test_bit
        } else if n > 0 && i == (n - 1) as usize {
            carry
        } else {
            0
        };
        out.push(v);
        i += 1;
    }
    assert(out@ =~= test_vector(n as int, test_bit, carry));
    out
}

/// Puts the bits on the wires named by `prefix`.
#[verifier::loop_isolation(false)]
pub fn vector_to_wire_map(prefix: u8, bits: &Vec<u8>, wires: &mut Wires)
    ensures
        final(wires)@ == wire_map(prefix, bits@, old(wires)@, 0),
{
    let mut i: usize = 0;
    while i < bits.len()
        invariant
            0 <= i <= bits@.len(),
            wire_map(prefix, bits@, wires@, i as int) == wire_map(prefix, bits@, old(wires)@, 0),
        decreases bits@.len() - i,
    {
        let name = label(prefix, i as i128);
        wires.insert(name.as_slice(), bits[i]);
        i += 1;
    }
}

/// Where the value on a wire comes from.
#[derive(Clone, Copy, Debug)]
pub enum Source {
    Fixed(u8),
    Gate(usize),
    Missing,
}

/// Where the value on the wire `name` comes from.
pub open spec fn source_of(c: Seq<GateView>, inputs: Table, name: Seq<u8>) -> Source {
    match probe(inputs, name) {
        Some(v) => Source::Fixed(v),
        None => {
            let p = position(outs(c), name);
            if 0 <= p < c.len() {
                Source::Gate(p as usize)
            } else {
                Source::Missing
            }
        },
    }
}

/// The value that comes from `src`, the values of the gates being `gate_values`.
pub open spec fn source_value(src: Source, gate_values: Seq<Option<u8>>) -> Option<u8> {
    match src {
        Source::Fixed(v) => Some(v),
        Source::Gate(p) => if p < gate_values.len() {
            gate_values[p as int]
        } else {
            None
        },
        Source::Missing => None,
    }
}

fn find_source(circuit: &Vec<Gate>, inputs: &Wires, name: &[u8]) -> (src: Source)
    ensures
        src == source_of(gate_views(circuit@), inputs@, name@),
{
    match inputs.get(name) {
        Some(v) => Source::Fixed(v),
        None => {
            let p = find_gate(circuit, name);
            if p < circuit.len() {
                Source::Gate(p)
            } else {
                Source::Missing
            }
        },
    }
}

/// The value on a wire, read from where it comes from: fixed by the inputs,
/// or put out by a gate whose value stands in `gate_values`.
pub fn evaluate_wire(src: Source, gate_values: &Vec<Option<u8>>) -> (v: Option<u8>)
    ensures
        v == source_value(src, gate_values@),
{
    match src {
        Source::Fixed(v) => Some(v),
        Source::Gate(p) => if p < gate_values.len() {
            gate_values[p]
        } else {
            None
        },
        Source::Missing => None,
    }
}

/// The value on the output wire of each gate for the given inputs, if every
/// one has a value.
#[verifier::loop_isolation(false)]
pub fn simulate_circuit(circuit: &Vec<Gate>, inputs: &Wires) -> (out: Option<Vec<u8>>)
    ensures
        match outputs_of(gate_views(circuit@), inputs@) {
            Some(vals) => out is Some && out->0@ == vals,
            None => out is None,
        },
{
    let ghost c = gate_views(circuit@);
    let ghost inp = inputs@;
    let n = circuit.len();
    let mut sources: Vec<(Source, Source, Source)> = Vec::new();
    let mut i: usize = 0;
    while i < n
        invariant
            0 <= i <= n,
            sources@.len() == i,
            forall|k: int|
                0 <= k < i ==> (#[trigger] sources@[k]) == (
                    source_of(c, inp, c[k].in1),
                    source_of(c, inp, c[k].in2),
                    source_of(c, inp, c[k].out),
                ),
        decreases n - i,
    {
        let g = &circuit[i];
        assert(c[i as int] == g@);
        let s1 = find_source(circuit, inputs, g.in1.as_slice());
        let s2 = find_source(circuit, inputs, g.in2.as_slice());
        let s3 = find_source(circuit, inputs, g.out.as_slice());
        sources.push((s1, s2, s3));
        i += 1;
    }
    let mut values: Vec<Option<u8>> = Vec::new();
    let mut i: usize = 0;
    while i < n
        invariant
            0 <= i <= n,
            values@.len() == i,
            forall|k: int| 0 <= k < i ==> (#[trigger] values@[k]) is None,
        decreases n - i,
    {
        values.push(None);
        i += 1;
    }
    let mut depth: usize = 0;
    while depth < n
        invariant
            0 <= depth <= n,
            values@.len() == n,
            forall|k: int| 0 <= k < n ==> (#[trigger] values@[k]) == gate_value(c, inp, k, depth as nat),
        decreases n - depth,
    {
        let mut next: Vec<Option<u8>> = Vec::new();
        let mut p: usize = 0;
        while p < n
            invariant
                0 <= p <= n,
                next@.len() == p,
                forall|k: int|
                    0 <= k < p ==> (#[trigger] next@[k]) == gate_value(c, inp, k, (depth + 1) as nat),
            decreases n - p,
        {
            let (s1, s2, _s3) = sources[p];
            let a = evaluate_wire(s1, &values);
            let b = evaluate_wire(s2, &values);
            proof {
                assert(sources@[p as int].0 == source_of(c, inp, c[p as int].in1));
                assert(sources@[p as int].1 == source_of(c, inp, c[p as int].in2));
                assert(a == wire_value(c, inp, c[p as int].in1, depth as nat));
                assert(b == wire_value(c, inp, c[p as int].in2, depth as nat));
            }
            let v = match (a, b) {
                (Some(a), Some(b)) => Some(match_operator(circuit[p].operator, a, b)),
                _ => None,
            };
            assert(c[p as int] == circuit@[p as int]@);
            next.push(v);
            p += 1;
        }
        values = next;
        depth += 1;
    }
    let mut outputs: Vec<u8> = Vec::new();
    let mut i: usize = 0;
    while i < n
        invariant
            0 <= i <= n,
            outputs@.len() == i,
            forall|k: int|
                0 <= k < i ==> wire_value(c, inp, c[k].out, n as nat) == Some(#[trigger] outputs@[k]),
        decreases n - i,
    {
        let (_s1, _s2, s3) = sources[i];
        assert(sources@[i as int].2 == source_of(c, inp, c[i as int].out));
        match evaluate_wire(s3, &values) {
            Some(v) => {
                outputs.push(v);
            },
            None => {
                assert(wire_value(c, inp, c[i as int].out, c.len()) is None);
                return None;
            },
        }
        i += 1;
    }
    assert forall|k: int| 0 <= k < c.len() implies (#[trigger] wire_value(
        c,
        inp,
        c[k].out,
        c.len(),
    )) is Some by {
        assert(wire_value(c, inp, c[k].out, n as nat) == Some(outputs@[k]));
    }
    assert(outputs@ =~= outputs_of(c, inp)->0);
    Some(outputs)
}

/// Whether bit `n` of the sum comes out right for every choice of the two
/// bits and of the carry from the bit below. `None` where `n` is no bit of
/// the adder, or some wire of the circuit has no value.
#[verifier::loop_isolation(false)]
pub fn validate_bit(n: u8, circuit: &Vec<Gate>) -> (out: Option<bool>)
    ensures
        out == validated(gate_views(circuit@), n as int),
{
    if n as usize >= WIDTH {
        return None;
    }
    let ghost c = gate_views(circuit@);
    let z_wire = make_wire(122, n as i32);
    let pz = find_gate(circuit, z_wire.as_slice());
    let mut k: u8 = 0;
    while k < 8
        invariant
            0 <= k <= 8,
            trials(c, n as int, k as int) == trials(c, n as int, 0),
        decreases 8 - k,
    {
        let x = k / 4;
        let y = (k / 2) % 2;
        let carry = k % 2;
        if !(n == 0 && carry == 1) {
            let xv = build_input_vector(n, x, carry);
            let yv = build_input_vector(n, y, carry);
            let mut inputs = Wires::new();
            vector_to_wire_map(120, &xv, &mut inputs);
            vector_to_wire_map(121, &yv, &mut inputs);
            let outputs = match simulate_circuit(circuit, &inputs) {
                Some(o) => o,
                None => {
                    return None;
                },
            };
            let got = if pz < circuit.len() {
                outputs[pz]
            } else {
                0
            };
            let expected = (x + y + carry) % 2;
            if got != expected {
                return Some(false);
            }
        }
        k += 1;
    }
    Some(true)
}

fn same_operator(a: Operator, b: Operator) -> (r: bool)
    ensures
        r == (a == b),
{
    match (a, b) {
        (Operator::And, Operator::And) => true,
        (Operator::Or, Operator::Or) => true,
        (Operator::Xor, Operator::Xor) => true,
        _ => false,
    }
}

/// The view of a name that may be missing.
pub open spec fn opt_view(name: Option<&[u8]>) -> Option<Seq<u8>> {
    match name {
        Some(a) => Some(a@),
        None => None,
    }
}

/// The index of the first gate of the kind asked for with the inputs asked for.
#[verifier::loop_isolation(false)]
pub fn find_wire(circuit: &Vec<Gate>, op: Option<Operator>, in1: Option<&[u8]>, in2: Option<&[u8]>)
    -> (out: Option<usize>)
    ensures
        match first_wanted(gate_views(circuit@), op, opt_view(in1), opt_view(in2), 0) {
            Some(p) => out == Some(p as usize) && 0 <= p < circuit@.len() && p <= usize::MAX,
            None => out is None,
        },
{
    let ghost c = gate_views(circuit@);
    let mut i: usize = 0;
    while i < circuit.len()
        invariant
            0 <= i <= circuit@.len(),
            first_wanted(c, op, opt_view(in1), opt_view(in2), i as int) == first_wanted(
                c,
                op,
                opt_view(in1),
                opt_view(in2),
                0,
            ),
        decreases circuit@.len() - i,
    {
        let g = &circuit[i];
        assert(c[i as int] == g@);
        let op_ok = match op {
            Some(o) => same_operator(g.operator, o),
            None => true,
        };
        let in1_ok = match in1 {
            Some(a) => same_bytes(g.in1.as_slice(), a) || same_bytes(g.in2.as_slice(), a),
            None => true,
        };
        let in2_ok = match in2 {
            Some(b) => same_bytes(g.in1.as_slice(), b) || same_bytes(g.in2.as_slice(), b),
            None => true,
        };
        if op_ok && in1_ok && in2_ok {
            return Some(i);
        }
        i += 1;
    }
    None
}

/// Swaps the outputs of the gates that put out `wire_a` and `wire_b`, and
/// says whether there were two such gates.
pub fn swap_gate_outputs(circuit: &mut Vec<Gate>, wire_a: &[u8], wire_b: &[u8]) -> (ok: bool)
    ensures
        match swapped(gate_views(old(circuit)@), wire_a@, wire_b@) {
            Some(c) => ok && gate_views(final(circuit)@) == c,
            None => !ok && *final(circuit) == *old(circuit),
        },
{
    let pa = find_gate(circuit, wire_a);
    let pb = find_gate(circuit, wire_b);
    if pa >= circuit.len() || pb >= circuit.len() || pa == pb {
        return false;
    }
    let ghost before = gate_views(circuit@);
    let ga = &circuit[pa];
    let na = Gate {
        in1: copy_range(ga.in1.as_slice(), 0, ga.in1.len()),
        in2: copy_range(ga.in2.as_slice(), 0, ga.in2.len()),
        operator: ga.operator,
        out: copy_range(wire_b, 0, wire_b.len()),
    };
    let gb = &circuit[pb];
    let nb = Gate {
        in1: copy_range(gb.in1.as_slice(), 0, gb.in1.len()),
        in2: copy_range(gb.in2.as_slice(), 0, gb.in2.len()),
        operator: gb.operator,
        out: copy_range(wire_a, 0, wire_a.len()),
    };
    proof {
        assert(before[pa as int] == circuit@[pa as int]@);
        assert(before[pb as int] == circuit@[pb as int]@);
        assert(na.in1@ =~= before[pa as int].in1);
        assert(na.in2@ =~= before[pa as int].in2);
        assert(na.out@ =~= wire_b@);
        assert(nb.in1@ =~= before[pb as int].in1);
        assert(nb.in2@ =~= before[pb as int].in2);
        assert(nb.out@ =~= wire_a@);
    }
    let ghost va = na@;
    let ghost vb = nb@;
    circuit.set(pa, na);
    circuit.set(pb, nb);
    assert(gate_views(circuit@) =~= before.update(pa as int, va).update(pb as int, vb));
    true
}

fn copy_name(name: &Vec<u8>) -> (out: Vec<u8>)
    ensures
        out@ == name@,
{
    let out = copy_range(name.as_slice(), 0, name.len());
    assert(out@ =~= name@);
    out
}

/// The wires to swap so that bit `n` is wired as a full adder wires it.
pub fn plan_swap(n: i32, circuit: &Vec<Gate>) -> (out: Vec<Vec<u8>>)
    requires
        n > i32::MIN,
    ensures
        views(out@) == swap_plan(gate_views(circuit@), n as int),
{
    let ghost c = gate_views(circuit@);
    let x0 = make_wire(120, n - 1);
    let y0 = make_wire(121, n - 1);
    let prev_and = find_wire(circuit, Some(Operator::And), Some(x0.as_slice()), Some(y0.as_slice()));
    let prev_xor = find_wire(circuit, Some(Operator::Xor), Some(x0.as_slice()), Some(y0.as_slice()));
    let m2 = match prev_xor {
        Some(p) => {
            assert(c[p as int] == circuit@[p as int]@);
            find_wire(circuit, Some(Operator::And), Some(circuit[p].out.as_slice()), None)
        },
        None => None,
    };
    let m1 = match (m2, prev_and) {
        (Some(a), Some(b)) => {
            assert(c[a as int] == circuit@[a as int]@);
            assert(c[b as int] == circuit@[b as int]@);
            find_wire(
                circuit,
                Some(Operator::Or),
                Some(circuit[a].out.as_slice()),
                Some(circuit[b].out.as_slice()),
            )
        },
        _ => None,
    };
    let x1 = make_wire(120, n);
    let y1 = make_wire(121, n);
    let nxor = find_wire(circuit, Some(Operator::Xor), Some(x1.as_slice()), Some(y1.as_slice()));
    let zn = match (nxor, m1) {
        (Some(a), Some(b)) => {
            assert(c[a as int] == circuit@[a as int]@);
            assert(c[b as int] == circuit@[b as int]@);
            find_wire(
                circuit,
                Some(Operator::Xor),
                Some(circuit[a].out.as_slice()),
                Some(circuit[b].out.as_slice()),
            )
        },
        _ => None,
    };
    let z = make_wire(122, n);
    let pz = find_gate(circuit, z.as_slice());
    let mut out: Vec<Vec<u8>> = Vec::new();
    assert(views(out@) =~= Seq::<Seq<u8>>::empty());
    match zn {
        Some(r) => {
            assert(c[r as int] == circuit@[r as int]@);
            if !same_bytes(circuit[r].out.as_slice(), z.as_slice()) {
                let other = copy_name(&circuit[r].out);
                out.push(z);
                out.push(other);
                assert(views(out@) =~= seq![z@, c[r as int].out]);
            }
        },
        None => {
            match (nxor, m1) {
                (Some(a), Some(b)) => {
                    if pz < circuit.len() {
                        assert(c[a as int] == circuit@[a as int]@);
                        assert(c[b as int] == circuit@[b as int]@);
                        assert(c[pz as int] == circuit@[pz as int]@);
                        let a1 = &circuit[pz].in1;
                        let a2 = &circuit[pz].in2;
                        let b1 = &circuit[a].out;
                        let b2 = &circuit[b].out;
                        if !same_bytes(a1.as_slice(), b1.as_slice()) && !same_bytes(
                            a1.as_slice(),
                            b2.as_slice(),
                        ) {
                            out.push(copy_name(a1));
                            assert(views(out@) =~= seq![a1@]);
                        }
                        let ghost s1 = views(out@);
                        if !same_bytes(a2.as_slice(), a1.as_slice()) && !same_bytes(
                            a2.as_slice(),
                            b1.as_slice(),
                        ) && !same_bytes(a2.as_slice(), b2.as_slice()) {
                            out.push(copy_name(a2));
                            assert(views(out@) =~= s1.push(a2@));
                        }
                        let ghost s2 = views(out@);
                        if !same_bytes(b1.as_slice(), a1.as_slice()) && !same_bytes(
                            b1.as_slice(),
                            a2.as_slice(),
                        ) {
                            out.push(copy_name(b1));
                            assert(views(out@) =~= s2.push(b1@));
                        }
                        let ghost s3 = views(out@);
                        if !same_bytes(b2.as_slice(), b1.as_slice()) && !same_bytes(
                            b2.as_slice(),
                            a1.as_slice(),
                        ) && !same_bytes(b2.as_slice(), a2.as_slice()) {
                            out.push(copy_name(b2));
                            assert(views(out@) =~= s3.push(b2@));
                        }
                        assert(views(out@) =~= sym_diff(a1@, a2@, b1@, b2@));
                    }
                },
                _ => {},
            }
        },
    }
    out
}

/// Repairs the wiring of bit `n`: where the plan names two wires, swaps
/// them. Gives the wires of the plan, or nothing where a wire to swap is no
/// gate's output.
pub fn fix_bit_n(n: i32, circuit: &mut Vec<Gate>) -> (out: Option<Vec<Vec<u8>>>)
    requires
        n > i32::MIN,
    ensures
        match repaired_bit(gate_views(old(circuit)@), n as int) {
            Some(c) => out is Some && views(out->0@) == swap_plan(
                gate_views(old(circuit)@),
                n as int,
            ) && gate_views(final(circuit)@) == c,
            None => out is None,
        },
{
    let to_swap = plan_swap(n, circuit);
    assert(views(to_swap@).len() == to_swap@.len());
    if to_swap.len() == 2 {
        assert(views(to_swap@)[0] == to_swap@[0]@);
        assert(views(to_swap@)[1] == to_swap@[1]@);
        if !swap_gate_outputs(circuit, to_swap[0].as_slice(), to_swap[1].as_slice()) {
            return None;
        }
    }
    Some(to_swap)
}

proof fn lemma_views_append(a: Seq<Vec<u8>>, b: Seq<Vec<u8>>)
    ensures
        views(a + b) == views(a) + views(b),
{
    assert(views(a + b) =~= views(a) + views(b));
}

/// The names of the swapped wires, in the order of the dictionary, with
/// commas between.
#[verifier::loop_isolation(false)]
pub fn part_two(input: &str) -> (out: Option<String>)
    ensures
        match answer_two(input.spec_bytes()) {
            Some(b) => (out is Some <==> vstd::utf8::valid_utf8(b)) && (out matches Some(s)
                ==> encode_utf8(s@) == b),
            None => out is None,
        },
{
    let pat: Vec<u8> = vec![10u8, 10u8];
    assert(pat@ =~= seq![10u8, 10u8]);
    let (top, bottom) = match split_once(input.as_bytes(), pat.as_slice()) {
        Some(p) => p,
        None => {
            return None;
        },
    };
    let wire_lines = lines(top.as_slice());
    let gate_lines = lines(bottom.as_slice());
    if parse_wires(&wire_lines).is_none() {
        return None;
    }
    let gates = match parse_gates(&gate_lines) {
        Some(g) => g,
        None => {
            return None;
        },
    };
    let ghost gs = gate_views(gates@);
    let mut circuit: Vec<Gate> = Vec::new();
    let mut gates = gates;
    let mut i: usize = 0;
    assert(gate_views(circuit@) =~= Seq::<GateView>::empty());
    assert(gs.skip(0) =~= gs);
    while i < gates.len()
        invariant
            0 <= i <= gates@.len(),
            gs == gate_views(gates@),
            circuit_of(gs.skip(i as int), gate_views(circuit@)) == circuit_of(gs, seq![]),
        decreases gates@.len() - i,
    {
        assert(gs.skip(i as int)[0] == gates@[i as int]@);
        assert(gs.skip(i as int).drop_first() =~= gs.skip(i + 1));
        let g = &gates[i];
        let copy = Gate {
            in1: copy_name(&g.in1),
            in2: copy_name(&g.in2),
            operator: g.operator,
            out: copy_name(&g.out),
        };
        insert_gate(&mut circuit, copy);
        i += 1;
    }
    let mut all_swaps: Vec<Vec<u8>> = Vec::new();
    assert(views(all_swaps@) =~= Seq::<Seq<u8>>::empty());
    let ghost goal = repairs(gate_views(circuit@), 0, seq![]);
    let mut bit: u8 = 0;
    while (bit as usize) < WIDTH
        invariant
            0 <= bit <= WIDTH,
            repairs(gate_views(circuit@), bit as int, views(all_swaps@)) == goal,
        decreases WIDTH - bit,
    {
        match validate_bit(bit, &circuit) {
            None => {
                return None;
            },
            Some(true) => {},
            Some(false) => {
                let mut fix_result = match fix_bit_n(bit as i32, &mut circuit) {
                    Some(f) => f,
                    None => {
                        return None;
                    },
                };
                proof {
                    lemma_views_append(all_swaps@, fix_result@);
                }
                all_swaps.append(&mut fix_result);
            },
        }
        bit += 1;
    }
    let sorted = sort_names(&all_swaps);
    let answer = join_with(&sorted, 44);
    to_text(answer)
}

/// A gate puts out a bit where its inputs are bits.
pub proof fn lemma_gates_keep_bits(op: Operator, a: u8, b: u8)
    requires
        a <= 1,
        b <= 1,
    ensures
        applied(op, a, b) <= 1,
{
    assert(a & b <= 1) by (bit_vector)
        requires
            a <= 1,
            b <= 1,
    ;
    assert(a | b <= 1) by (bit_vector)
        requires
            a <= 1,
            b <= 1,
    ;
    assert(a ^ b <= 1) by (bit_vector)
        requires
            a <= 1,
            b <= 1,
    ;
}

/// The table has a value for each of its names.
pub open spec fn table_ok(t: Table) -> bool {
    t.names.len() == t.values.len()
}

/// No two gates put out on one wire, and no gate on a wire that has a value
/// in the table `t0`.
pub open spec fn fresh_outputs(gates: Seq<GateView>, t0: Table) -> bool {
    &&& forall|i: int, j: int|
        0 <= i < j < gates.len() ==> (#[trigger] gates[i]).out != (#[trigger] gates[j]).out
    &&& forall|i: int| 0 <= i < gates.len() ==> probe(t0, (#[trigger] gates[i]).out) is None
}

/// Both inputs of a gate have a value in the table.
pub open spec fn ready(g: GateView, t: Table) -> bool {
    probe(t, g.in1) is Some && probe(t, g.in2) is Some
}

/// What is recorded of a gate agrees with the table: a gate that has fired
/// finds both its inputs there, has put out what it computes from them, and
/// that value is on its output wire; the output wire of a gate that has not
/// fired has no value.
pub open spec fn gate_right(g: GateView, t: Table, out: Option<u32>) -> bool {
    match out {
        Some(v) => match (probe(t, g.in1), probe(t, g.in2)) {
            (Some(a), Some(b)) => v == applied(g.operator, a, b) as u32 && probe(t, g.out) == Some(
                applied(g.operator, a, b),
            ),
            _ => false,
        },
        None => probe(t, g.out) is None,
    }
}

/// The table `t` and the record `outs` agree for every gate, and every
/// wire that had a value in the table `t0` has kept it.
pub open spec fn consistent(gates: Seq<GateView>, t0: Table, t: Table, outs: Seq<Option<u32>>) -> bool {
    &&& table_ok(t)
    &&& outs.len() == gates.len()
    &&& forall|n: Seq<u8>| (#[trigger] probe(t0, n)) is Some ==> probe(t, n) == probe(t0, n)
    &&& forall|i: int| 0 <= i < gates.len() ==> gate_right(gates[i], t, #[trigger] outs[i])
}

/// How many gates have fired.
pub open spec fn fired_count(outs: Seq<Option<u32>>) -> nat
    decreases outs.len(),
{
    if outs.len() == 0 {
        0
    } else {
        fired_count(outs.drop_last()) + if outs.last() is Some {
            1nat
        } else {
            0nat
        }
    }
}

proof fn lemma_fired_count(outs: Seq<Option<u32>>, i: int, v: u32)
    requires
        0 <= i < outs.len(),
        outs[i] is None,
    ensures
        fired_count(outs.update(i, Some(v))) == fired_count(outs) + 1,
        fired_count(outs) < outs.len(),
    decreases outs.len(),
{
    let more = outs.update(i, Some(v));
    if i == outs.len() - 1 {
        assert(more.drop_last() =~= outs.drop_last());
        lemma_fired_bound(outs.drop_last());
    } else {
        assert(more.drop_last() =~= outs.drop_last().update(i, Some(v)));
        lemma_fired_count(outs.drop_last(), i, v);
    }
}

proof fn lemma_fired_bound(outs: Seq<Option<u32>>)
    ensures
        fired_count(outs) <= outs.len(),
    decreases outs.len(),
{
    if outs.len() > 0 {
        lemma_fired_bound(outs.drop_last());
    }
}

proof fn lemma_position(names: Seq<Seq<u8>>, name: Seq<u8>)
    ensures
        0 <= position(names, name) <= names.len(),
        position(names, name) < names.len() ==> names[position(names, name)] == name,
        forall|k: int| 0 <= k < position(names, name) ==> names[k] != name,
    decreases names.len(),
{
    if names.len() > 0 && names[0] != name {
        let rest = names.drop_first();
        lemma_position(rest, name);
        assert forall|k: int| 0 <= k < position(names, name) implies names[k] != name by {
            if k > 0 {
                assert(names[k] == rest[k - 1]);
            }
        }
    }
}

proof fn lemma_position_is_first(names: Seq<Seq<u8>>, name: Seq<u8>, p: int)
    requires
        0 <= p <= names.len(),
        p < names.len() ==> names[p] == name,
        forall|k: int| 0 <= k < p ==> names[k] != name,
    ensures
        position(names, name) == p,
    decreases names.len(),
{
    if names.len() > 0 && names[0] != name {
        let rest = names.drop_first();
        assert(p > 0);
        assert forall|k: int| 0 <= k < p - 1 implies rest[k] != name by {
            assert(rest[k] == names[k + 1]);
        }
        lemma_position_is_first(rest, name, p - 1);
    }
}

/// A value stored on a wire is found on that wire, and the other wires are
/// as they were.
pub proof fn lemma_probe_stored(t: Table, n: Seq<u8>, v: u8, m: Seq<u8>)
    requires
        table_ok(t),
    ensures
        table_ok(stored(t, n, v)),
        probe(stored(t, n, v), m) == if m == n {
            Some(v)
        } else {
            probe(t, m)
        },
{
    lemma_position(t.names, n);
    lemma_position(t.names, m);
    let p = position(t.names, n);
    let q = position(t.names, m);
    if p < t.names.len() {
    } else {
        let more = t.names.push(n);
        if q < t.names.len() {
            assert forall|k: int| 0 <= k < q implies more[k] != m by {
                assert(more[k] == t.names[k]);
            }
            assert(more[q] == m);
            lemma_position_is_first(more, m, q);
        } else if m == n {
            assert forall|k: int| 0 <= k < t.names.len() implies more[k] != m by {
                assert(more[k] == t.names[k]);
            }
            lemma_position_is_first(more, m, t.names.len() as int);
        } else {
            assert forall|k: int| 0 <= k < more.len() implies more[k] != m by {
                if k < t.names.len() {
                    assert(more[k] == t.names[k]);
                }
            }
            lemma_position_is_first(more, m, more.len() as int);
        }
    }
}

proof fn lemma_fire_keeps_consistent(
    gates: Seq<GateView>,
    t0: Table,
    t: Table,
    outs: Seq<Option<u32>>,
    i: int,
)
    requires
        fresh_outputs(gates, t0),
        consistent(gates, t0, t, outs),
        0 <= i < gates.len(),
        outs[i] is None,
        ready(gates[i], t),
    ensures
        ({
            let v = applied(gates[i].operator, probe(t, gates[i].in1)->0, probe(t, gates[i].in2)->0);
            consistent(gates, t0, stored(t, gates[i].out, v), outs.update(i, Some(v as u32)))
        }),
{
    let g = gates[i];
    let v = applied(g.operator, probe(t, g.in1)->0, probe(t, g.in2)->0);
    let t2 = stored(t, g.out, v);
    let outs2 = outs.update(i, Some(v as u32));
    assert(gate_right(gates[i], t, outs[i]));
    lemma_probe_stored(t, g.out, v, g.out);
    assert forall|n: Seq<u8>| (#[trigger] probe(t0, n)) is Some implies probe(t2, n) == probe(
        t0,
        n,
    ) by {
        lemma_probe_stored(t, g.out, v, n);
    }
    assert forall|k: int| 0 <= k < gates.len() implies gate_right(
        gates[k],
        t2,
        #[trigger] outs2[k],
    ) by {
        let h = gates[k];
        assert(gate_right(gates[k], t, outs[k]));
        lemma_probe_stored(t, g.out, v, h.in1);
        lemma_probe_stored(t, g.out, v, h.in2);
        lemma_probe_stored(t, g.out, v, h.out);
        if k != i && outs[k] is None {
            if k < i {
                assert(gates[k].out != gates[i].out);
            } else {
                assert(gates[i].out != gates[k].out);
            }
        }
    }
}

proof fn lemma_swept_consistent(
    gates: Seq<GateView>,
    t0: Table,
    t: Table,
    outs: Seq<Option<u32>>,
    i: int,
    progress: bool,
)
    requires
        fresh_outputs(gates, t0),
        consistent(gates, t0, t, outs),
        0 <= i,
    ensures
        ({
            let s = swept(gates, t, outs, i, progress);
            &&& consistent(gates, t0, s.0, s.1)
            &&& fired_count(s.1) >= fired_count(outs)
            &&& s.2 ==> progress || fired_count(s.1) > fired_count(outs)
            &&& progress ==> s.2
            &&& !s.2 ==> s.0 == t && s.1 == outs && forall|j: int|
                i <= j < gates.len() && outs[j] is None ==> !ready(#[trigger] gates[j], t)
        }),
    decreases gates.len() - i,
{
    if i < gates.len() && i < outs.len() {
        if outs[i] is Some {
            lemma_swept_consistent(gates, t0, t, outs, i + 1, progress);
        } else {
            match (probe(t, gates[i].in1), probe(t, gates[i].in2)) {
                (Some(a), Some(b)) => {
                    let v = applied(gates[i].operator, a, b);
                    lemma_fire_keeps_consistent(gates, t0, t, outs, i);
                    lemma_fired_count(outs, i, v as u32);
                    lemma_swept_consistent(
                        gates,
                        t0,
                        stored(t, gates[i].out, v),
                        outs.update(i, Some(v as u32)),
                        i + 1,
                        true,
                    );
                },
                _ => {
                    lemma_swept_consistent(gates, t0, t, outs, i + 1, progress);
                    assert(!ready(gates[i], t));
                },
            }
        }
    }
}

proof fn lemma_settled_consistent(
    gates: Seq<GateView>,
    t0: Table,
    t: Table,
    outs: Seq<Option<u32>>,
    passes: nat,
)
    requires
        fresh_outputs(gates, t0),
        consistent(gates, t0, t, outs),
        passes + fired_count(outs) > gates.len(),
    ensures
        ({
            let e = settled(gates, t, outs, passes);
            &&& consistent(gates, t0, e.0, e.1)
            &&& forall|j: int|
                0 <= j < gates.len() && e.1[j] is None ==> !ready(#[trigger] gates[j], e.0)
        }),
    decreases passes,
{
    lemma_fired_bound(outs);
    let s = swept(gates, t, outs, 0, false);
    lemma_swept_consistent(gates, t0, t, outs, 0, false);
    if s.2 {
        lemma_fired_bound(s.1);
        lemma_settled_consistent(gates, t0, s.0, s.1, (passes - 1) as nat);
    }
}

/// Where no two gates put out on one wire and none on a wire that has a
/// value from the start, a circuit that has settled is as it should be: the
/// wires of the start have kept their values; a gate that has fired finds
/// both its inputs in the table, has put out what it computes from them, and
/// that value is on its output wire; a gate that has not fired lacks an
/// input, and its output wire has no value.
pub proof fn lemma_settled_circuit(gates: Seq<GateView>, t0: Table)
    requires
        table_ok(t0),
        fresh_outputs(gates, t0),
    ensures
        ({
            let e = settled(
                gates,
                t0,
                Seq::new(gates.len(), |i: int| None::<u32>),
                gates.len() + 1,
            );
            &&& consistent(gates, t0, e.0, e.1)
            &&& forall|j: int|
                0 <= j < gates.len() ==> ((#[trigger] e.1[j]) is Some <==> ready(gates[j], e.0))
        }),
{
    let none = Seq::new(gates.len(), |i: int| None::<u32>);
    assert(consistent(gates, t0, t0, none));
    lemma_settled_consistent(gates, t0, t0, none, gates.len() + 1);
    let e = settled(gates, t0, none, gates.len() + 1);
    assert forall|j: int| 0 <= j < gates.len() implies ((#[trigger] e.1[j]) is Some <==> ready(
        gates[j],
        e.0,
    )) by {
        assert(gate_right(gates[j], e.0, e.1[j]));
        if e.1[j] is None {
            assert(!ready(gates[j], e.0));
        }
    }
}

/// The table that a list of wires and values gives has a value for each name.
pub proof fn lemma_table_of_ok(ws: Seq<(Seq<u8>, u8)>, t: Table)
    requires
        table_ok(t),
    ensures
        table_ok(table_of(ws, t)),
    decreases ws.len(),
{
    if ws.len() > 0 {
        lemma_probe_stored(t, ws[0].0, ws[0].1, ws[0].0);
        lemma_table_of_ok(ws.drop_first(), stored(t, ws[0].0, ws[0].1));
    }
}

/// What the gates handed out say they have put out.
pub open spec fn outputs_in(done: Seq<Gate1View>) -> Seq<Option<u32>> {
    Seq::new(done.len(), |i: int| done[i].output_value)
}

/// For a text whose gates put out on wires of their own, none of them a
/// wire of the first section, the gates handed out are the gates of the text
/// in its order, and they and the table of wires are as a settled circuit
/// should be.
pub proof fn lemma_solved_circuit(s: Seq<u8>, ws: Seq<(Seq<u8>, u8)>, gates: Seq<GateView>)
    requires
        split_once_seq(s, seq![10u8, 10u8]) matches Some(halves) && wires_of(lines_of(halves.0))
            == Some(ws) && gates_of(lines_of(halves.1)) == Some(gates),
        fresh_outputs(gates, table_of(ws, Table { names: seq![], values: seq![] })),
    ensures
        solved(s) matches Some(end) && ({
            let t0 = table_of(ws, Table { names: seq![], values: seq![] });
            &&& end.0.len() == gates.len()
            &&& forall|i: int|
                0 <= i < gates.len() ==> (#[trigger] end.0[i]) == with_output(
                    gates[i],
                    end.0[i].output_value,
                )
            &&& consistent(gates, t0, end.1, outputs_in(end.0))
            &&& forall|i: int|
                0 <= i < gates.len() ==> ((#[trigger] end.0[i]).output_value is Some <==> ready(
                    gates[i],
                    end.1,
                ))
        }),
{
    let t0 = table_of(ws, Table { names: seq![], values: seq![] });
    lemma_table_of_ok(ws, Table { names: seq![], values: seq![] });
    lemma_settled_circuit(gates, t0);
    let e = settled(gates, t0, Seq::new(gates.len(), |i: int| None::<u32>), gates.len() + 1);
    let end = solved(s)->0;
    assert(end.0 == with_outputs(gates, e.1));
    assert(outputs_in(end.0) =~= e.1);
    assert forall|i: int| 0 <= i < gates.len() implies ((#[trigger] end.0[i]).output_value is Some
        <==> ready(gates[i], end.1)) by {
        assert(end.0[i].output_value == e.1[i]);
    }
}

} // verus!
