//! The circuit builder: one growing gate list, the input bits of both parties,
//! and the cached constant wires. Every operation appends gates and returns the
//! wires that carry its result.
use crate::circuit::{
    count_contributor, count_evaluator, gate_value, gates_wf, lemma_wire_values_len,
    lemma_wire_values_prefix, run_tandem, wire_values, Circuit, Gate, MAX_GATES,
};
use vstd::prelude::*;

verus! {

/// Adding input bits that no gate reads yet leaves every wire as it was.
pub proof fn lemma_wire_values_more_inputs(
    gates: Seq<Gate>,
    c: Seq<bool>,
    c2: Seq<bool>,
    e: Seq<bool>,
    e2: Seq<bool>,
)
    requires
        count_contributor(gates) <= c.len() <= c2.len(),
        c2.subrange(0, c.len() as int) == c,
        count_evaluator(gates) <= e.len() <= e2.len(),
        e2.subrange(0, e.len() as int) == e,
    ensures
        wire_values(gates, c, e) == wire_values(gates, c2, e2),
    decreases gates.len(),
{
    if gates.len() > 0 {
        let p = gates.drop_last();
        lemma_wire_values_more_inputs(p, c, c2, e, e2);
        let nc = count_contributor(p);
        let ne = count_evaluator(p);
        if gates.last() is InContrib {
            assert(c2[nc as int] == c2.subrange(0, c.len() as int)[nc as int]);
        }
        if gates.last() is InEval {
            assert(e2[ne as int] == e2.subrange(0, e.len() as int)[ne as int]);
        }
    }
}

/// Why running a circuit failed: the executor's own error, unchanged.
#[derive(Debug)]
pub enum ExecutionError {
    Executor(tandem::Error),
}

/// A two-operand bitwise operation, and its gate cost per bit.
#[derive(Clone, Copy, Debug, PartialEq, Eq, Structural)]
pub enum BitwiseOp {
    And,
    Or,
    Xor,
    Nand,
    Nor,
    Xnor,
}

impl BitwiseOp {
    /// What the operation does to one pair of bits.
    pub open spec fn apply(self, x: bool, y: bool) -> bool {
        match self {
            BitwiseOp::And => x && y,
            BitwiseOp::Or => x || y,
            BitwiseOp::Xor => x != y,
            BitwiseOp::Nand => !(x && y),
            BitwiseOp::Nor => !(x || y),
            BitwiseOp::Xnor => x == y,
        }
    }

    /// Gates per bit: OR is `(x XOR y) XOR (x AND y)`, and the negated forms
    /// add one NOT.
    pub open spec fn cost(self) -> nat {
        match self {
            BitwiseOp::And => 1,
            BitwiseOp::Or => 3,
            BitwiseOp::Xor => 1,
            BitwiseOp::Nand => 2,
            BitwiseOp::Nor => 4,
            BitwiseOp::Xnor => 2,
        }
    }

    /// The gates of the operation on the wires `x` and `y`, appended from
    /// position `base`: AND and XOR are one gate; NAND and XNOR add a NOT;
    /// OR is `(x XOR y) XOR (x AND y)`, and NOR adds a NOT to it.
    pub open spec fn gates_at(self, x: u32, y: u32, base: nat) -> Seq<Gate> {
        match self {
            BitwiseOp::And => seq![Gate::And(x, y)],
            BitwiseOp::Xor => seq![Gate::Xor(x, y)],
            BitwiseOp::Nand => seq![Gate::And(x, y), Gate::Not(base as u32)],
            BitwiseOp::Xnor => seq![Gate::Xor(x, y), Gate::Not(base as u32)],
            BitwiseOp::Or => seq![Gate::Xor(x, y), Gate::And(x, y), Gate::Xor(base as u32, (base + 1) as u32)],
            BitwiseOp::Nor => seq![
                Gate::Xor(x, y),
                Gate::And(x, y),
                Gate::Xor(base as u32, (base + 1) as u32),
                Gate::Not((base + 2) as u32),
            ],
        }
    }

    /// The gates of the operation on each pair of wires of `a` and `b`, the
    /// pairs one after another from position `base`.
    pub open spec fn bitwise_gates(self, a: Seq<u32>, b: Seq<u32>, base: nat) -> Seq<Gate>
        decreases a.len(),
    {
        if a.len() == 0 {
            Seq::empty()
        } else {
            let k = (a.len() - 1) as nat;
            self.bitwise_gates(a.drop_last(), b.subrange(0, k as int), base) + self.gates_at(
                a.last(),
                b[k as int],
                base + k * self.cost(),
            )
        }
    }

    /// The operation applied bit by bit.
    pub open spec fn apply_bits(self, x: Seq<bool>, y: Seq<bool>) -> Seq<bool> {
        Seq::new(x.len(), |i: int| self.apply(x[i], y[i]))
    }
}

/// The gates of a bitwise operation read only as many wires of `b` as `a` has.
pub proof fn lemma_bitwise_gates_prefix(op: BitwiseOp, a: Seq<u32>, b: Seq<u32>, base: nat)
    requires
        a.len() <= b.len(),
    ensures
        op.bitwise_gates(a, b, base) == op.bitwise_gates(a, b.subrange(0, a.len() as int), base),
    decreases a.len(),
{
    if a.len() > 0 {
        let k = (a.len() - 1) as int;
        assert(b.subrange(0, a.len() as int).subrange(0, k) =~= b.subrange(0, k));
    }
}

/// The input gate of the contributor or of the evaluator.
pub open spec fn input_gate(for_contributor: bool) -> Gate {
    if for_contributor {
        Gate::InContrib
    } else {
        Gate::InEval
    }
}

/// A builder for one circuit.
pub struct CircuitBuilder {
    gates: Vec<Gate>,
    contributor: Vec<bool>,
    evaluator: Vec<bool>,
    constant_false: Option<u32>,
    constant_true: Option<u32>,
}

impl CircuitBuilder {
    /// The gates appended so far.
    pub closed spec fn gates(&self) -> Seq<Gate> {
        self.gates@
    }

    /// The contributor's input bits, one for each contributor input gate.
    pub closed spec fn contributor(&self) -> Seq<bool> {
        self.contributor@
    }

    /// The evaluator's input bits, one for each evaluator input gate.
    pub closed spec fn evaluator(&self) -> Seq<bool> {
        self.evaluator@
    }

    /// The bit on every wire, on the builder's own inputs.
    pub open spec fn wires(&self) -> Seq<bool> {
        wire_values(self.gates(), self.contributor(), self.evaluator())
    }

    /// Every wire of `ws` exists.
    pub open spec fn valid(&self, ws: Seq<u32>) -> bool {
        forall|i: int| 0 <= i < ws.len() ==> (#[trigger] ws[i]) < self.gates().len()
    }

    /// The bits on the wires `ws`.
    pub open spec fn read(&self, ws: Seq<u32>) -> Seq<bool> {
        Seq::new(ws.len(), |i: int| self.wires()[ws[i] as int])
    }

    /// No gate but inputs yet: more inputs may come.
    pub open spec fn taking_inputs(&self) -> bool {
        forall|i: int| 0 <= i < self.gates().len() ==> (#[trigger] self.gates()[i]).is_input()
    }

    /// The cached constant wires carry their constants.
    pub closed spec fn constants_ok(&self) -> bool {
        &&& (self.constant_false matches Some(z) ==> z < self.gates@.len() && !self.wires()[z as int])
        &&& (self.constant_true matches Some(o) ==> o < self.gates@.len() && self.wires()[o as int])
        &&& (self.constant_true is Some ==> self.constant_false is Some)
    }

    /// Gates read earlier wires only, inputs stand in a prefix, and there is
    /// one input bit for each input gate.
    pub open spec fn wf(&self) -> bool {
        &&& gates_wf(self.gates())
        &&& self.wires().len() == self.gates().len()
        &&& count_contributor(self.gates()) == self.contributor().len()
        &&& count_evaluator(self.gates()) == self.evaluator().len()
        &&& forall|i: int, j: int|
            0 <= i < j < self.gates().len() && (#[trigger] self.gates()[j]).is_input()
                ==> (#[trigger] self.gates()[i]).is_input()
        &&& self.constants_ok()
    }

    /// `self` continues `old`: the same inputs, and `old`'s gates as a prefix.
    pub open spec fn extends(&self, old: &Self) -> bool {
        &&& old.gates().len() <= self.gates().len()
        &&& self.gates().subrange(0, old.gates().len() as int) == old.gates()
        &&& self.contributor() == old.contributor()
        &&& self.evaluator() == old.evaluator()
        &&& (old.constants_ready() ==> self.constants_ready())
        &&& (old.has_false() ==> self.has_false())
    }

    /// Both constant wires exist: asking for a constant appends no gate.
    pub closed spec fn constants_ready(&self) -> bool {
        self.constant_false is Some && self.constant_true is Some
    }

    /// The false wire exists.
    pub closed spec fn has_false(&self) -> bool {
        self.constant_false is Some
    }

    /// Room for `k` more gates.
    pub open spec fn room(&self, k: nat) -> bool {
        self.gates().len() + k <= MAX_GATES
    }

    pub proof fn lemma_wires_len(&self)
        ensures
            self.wires().len() == self.gates().len(),
    {
        lemma_wire_values_len(self.gates(), self.contributor(), self.evaluator());
    }

    /// A builder that extends another reads the other's wires alike.
    pub proof fn lemma_extends_read(&self, old: &Self, ws: Seq<u32>)
        requires
            self.extends(old),
            old.valid(ws),
        ensures
            self.valid(ws),
            self.read(ws) == old.read(ws),
    {
        lemma_wire_values_prefix(self.gates(), old.gates().len() as int, self.contributor(), self.evaluator());
        self.lemma_wires_len();
        old.lemma_wires_len();
        assert forall|i: int| 0 <= i < ws.len() implies self.wires()[ws[i] as int] == old.wires()[ws[i] as int] by {
            assert(self.wires().subrange(0, old.gates().len() as int)[ws[i] as int] == self.wires()[ws[i] as int]);
        }
        assert(self.read(ws) =~= old.read(ws));
    }

    /// A wire of a builder that another extends carries the same bit there.
    pub proof fn lemma_extends_wire(&self, old: &Self, w: u32)
        requires
            self.extends(old),
            old.wf(),
            w < old.gates().len(),
        ensures
            w < self.gates().len(),
            self.wires()[w as int] == old.wires()[w as int],
    {
        self.lemma_extends_keeps(old);
        self.lemma_keeps_read(old, seq![w]);
        assert(self.read(seq![w])[0] == old.read(seq![w])[0]);
    }

    /// Extension is transitive.
    pub proof fn lemma_extends_trans(&self, mid: &Self, old: &Self)
        requires
            self.extends(mid),
            mid.extends(old),
        ensures
            self.extends(old),
    {
        assert(self.gates().subrange(0, old.gates().len() as int) =~= mid.gates().subrange(0, old.gates().len() as int));
    }

    /// `self` keeps the wires of `old` as they were.
    pub open spec fn keeps(&self, old: &Self) -> bool {
        &&& old.gates().len() <= self.gates().len()
        &&& self.wires().subrange(0, old.gates().len() as int) == old.wires()
    }

    pub proof fn lemma_extends_keeps(&self, old: &Self)
        requires
            self.extends(old),
        ensures
            self.keeps(old),
    {
        lemma_wire_values_prefix(self.gates(), old.gates().len() as int, self.contributor(), self.evaluator());
    }

    /// Wires that are kept read alike.
    pub proof fn lemma_keeps_read(&self, old: &Self, ws: Seq<u32>)
        requires
            self.keeps(old),
            old.wf(),
            old.valid(ws),
        ensures
            self.valid(ws),
            self.read(ws) == old.read(ws),
    {
        self.lemma_wires_len();
        old.lemma_wires_len();
        assert forall|i: int| 0 <= i < ws.len() implies self.wires()[ws[i] as int] == old.wires()[ws[i] as int] by {
            assert(self.wires().subrange(0, old.gates().len() as int)[ws[i] as int] == self.wires()[ws[i] as int]);
        }
        assert(self.read(ws) =~= old.read(ws));
    }

    /// Keeping is transitive.
    pub proof fn lemma_keeps_trans(&self, mid: &Self, old: &Self)
        requires
            self.keeps(mid),
            mid.keeps(old),
        ensures
            self.keeps(old),
    {
        self.lemma_wires_len();
        mid.lemma_wires_len();
        old.lemma_wires_len();
        assert(self.wires().subrange(0, old.gates().len() as int) =~= self.wires().subrange(0, mid.gates().len() as int).subrange(0, old.gates().len() as int));
    }

    fn push_inputs(&mut self, bits: &Vec<bool>, for_contributor: bool) -> (r: Vec<u32>)
        requires
            old(self).wf(),
            old(self).taking_inputs(),
            old(self).room(bits@.len()),
        ensures
            final(self).wf(),
            final(self).taking_inputs(),
            final(self).keeps(old(self)),
            final(self).gates().len() == old(self).gates().len() + bits@.len(),
            for_contributor ==> final(self).contributor() == old(self).contributor() + bits@,
            for_contributor ==> final(self).evaluator() == old(self).evaluator(),
            !for_contributor ==> final(self).evaluator() == old(self).evaluator() + bits@,
            !for_contributor ==> final(self).contributor() == old(self).contributor(),
            final(self).valid(r@),
            final(self).read(r@) == bits@,
            forall|k: int| 0 <= k < r@.len() ==> r@[k] == old(self).gates().len() + k,
            final(self).gates() == old(self).gates() + Seq::new(bits@.len(), |k: int| input_gate(for_contributor)),
    {
        let mut r: Vec<u32> = Vec::new();
        let mut i: usize = 0;
        proof {
            assert(self.wires().subrange(0, self.gates().len() as int) =~= self.wires());
            assert(self.gates() =~= old(self).gates() + Seq::new(0, |k: int| input_gate(for_contributor)));
        }
        while i < bits.len()
            invariant
                0 <= i <= bits@.len(),
                old(self).room(bits@.len()),
                self.wf(),
                self.taking_inputs(),
                self.keeps(old(self)),
                self.gates().len() == old(self).gates().len() + i,
                for_contributor ==> self.contributor() == old(self).contributor() + bits@.subrange(0, i as int),
                for_contributor ==> self.evaluator() == old(self).evaluator(),
                !for_contributor ==> self.evaluator() == old(self).evaluator() + bits@.subrange(0, i as int),
                !for_contributor ==> self.contributor() == old(self).contributor(),
                r@.len() == i,
                forall|k: int| 0 <= k < i ==> r@[k] == old(self).gates().len() + k,
                self.read(r@) == bits@.subrange(0, i as int),
                self.gates() == old(self).gates() + Seq::new(i as nat, |k: int| input_gate(for_contributor)),
            decreases bits@.len() - i,
        {
            let ghost g0 = self.gates@;
            let ghost c0 = self.contributor@;
            let ghost e0 = self.evaluator@;
            let ghost w0 = self.wires();
            let ghost prev = *self;
            let w = self.gates.len() as u32;
            let b = bits[i];
            if for_contributor {
                self.gates.push(Gate::InContrib);
                self.contributor.push(b);
            } else {
                self.gates.push(Gate::InEval);
                self.evaluator.push(b);
            }
            r.push(w);
            proof {
                assert(self.gates@.drop_last() =~= g0);
                assert(self.contributor@.subrange(0, c0.len() as int) =~= c0);
                assert(self.evaluator@.subrange(0, e0.len() as int) =~= e0);
                lemma_wire_values_more_inputs(g0, c0, self.contributor@, e0, self.evaluator@);
                assert(self.wires() == w0.push(b));
                assert(self.wires().subrange(0, g0.len() as int) =~= w0);
                self.lemma_keeps_trans(&prev, old(self));
                assert forall|k: int| 0 <= k < self.gates@.len() implies (#[trigger] self.gates@[k]).reads_below(k as nat) by {
                    if k < g0.len() {
                        assert(self.gates@[k] == g0[k]);
                    }
                }
                assert forall|k: int| 0 <= k < self.gates@.len() implies (#[trigger] self.gates@[k]).is_input() by {
                    if k < g0.len() {
                        assert(self.gates@[k] == g0[k]);
                    }
                }
                assert(self.read(r@) =~= bits@.subrange(0, i + 1));
                assert(self.gates() =~= old(self).gates() + Seq::new((i + 1) as nat, |k: int| input_gate(for_contributor)));
                if for_contributor {
                    assert(self.contributor() =~= old(self).contributor() + bits@.subrange(0, i + 1));
                } else {
                    assert(self.evaluator() =~= old(self).evaluator() + bits@.subrange(0, i + 1));
                }
            }
            i += 1;
        }
        proof {
            assert(bits@.subrange(0, i as int) =~= bits@);
        }
        r
    }

    /// Registers the contributor's bits as input gates; returns their wires.
    pub fn add_contributor_input(&mut self, bits: &Vec<bool>) -> (r: Vec<u32>)
        requires
            old(self).wf(),
            old(self).taking_inputs(),
            old(self).room(bits@.len()),
        ensures
            final(self).wf(),
            final(self).taking_inputs(),
            final(self).keeps(old(self)),
            final(self).gates().len() == old(self).gates().len() + bits@.len(),
            final(self).contributor() == old(self).contributor() + bits@,
            final(self).evaluator() == old(self).evaluator(),
            final(self).valid(r@),
            final(self).read(r@) == bits@,
            forall|k: int| 0 <= k < r@.len() ==> r@[k] == old(self).gates().len() + k,
            final(self).gates() == old(self).gates() + Seq::new(bits@.len(), |k: int| input_gate(true)),
    {
        self.push_inputs(bits, true)
    }

    /// Registers the evaluator's bits as input gates; returns their wires.
    pub fn add_evaluator_input(&mut self, bits: &Vec<bool>) -> (r: Vec<u32>)
        requires
            old(self).wf(),
            old(self).taking_inputs(),
            old(self).room(bits@.len()),
        ensures
            final(self).wf(),
            final(self).taking_inputs(),
            final(self).keeps(old(self)),
            final(self).gates().len() == old(self).gates().len() + bits@.len(),
            final(self).evaluator() == old(self).evaluator() + bits@,
            final(self).contributor() == old(self).contributor(),
            final(self).valid(r@),
            final(self).read(r@) == bits@,
            forall|k: int| 0 <= k < r@.len() ==> r@[k] == old(self).gates().len() + k,
            final(self).gates() == old(self).gates() + Seq::new(bits@.len(), |k: int| input_gate(false)),
    {
        self.push_inputs(bits, false)
    }

    /// An empty builder.
    pub fn new() -> (r: Self)
        ensures
            r.wf(),
            r.taking_inputs(),
            r.gates() == Seq::<Gate>::empty(),
            r.contributor() == Seq::<bool>::empty(),
            r.evaluator() == Seq::<bool>::empty(),
    {
        CircuitBuilder {
            gates: Vec::new(),
            contributor: Vec::new(),
            evaluator: Vec::new(),
            constant_false: None,
            constant_true: None,
        }
    }

    /// Number of gates so far.
    pub fn gate_count(&self) -> (r: usize)
        ensures
            r == self.gates().len(),
    {
        self.gates.len()
    }

    fn push_gate(&mut self, g: Gate) -> (w: u32)
        requires
            old(self).wf(),
            !g.is_input(),
            g.reads_below(old(self).gates().len()),
            old(self).room(1),
        ensures
            final(self).wf(),
            final(self).extends(old(self)),
            final(self).gates() == old(self).gates().push(g),
            w == old(self).gates().len(),
            final(self).wires() == old(self).wires().push(
                gate_value(g, old(self).wires(), 0, 0, old(self).contributor(), old(self).evaluator()),
            ),
    {
        let w = self.gates.len() as u32;
        self.gates.push(g);
        proof {
            assert(self.gates@.drop_last() =~= old(self).gates@);
            assert(self.gates@.subrange(0, old(self).gates@.len() as int) =~= old(self).gates@);
            old(self).lemma_wires_len();
            self.lemma_wires_len();
            assert forall|i: int| 0 <= i < self.gates@.len() implies (#[trigger] self.gates@[i]).reads_below(i as nat) by {
                if i < old(self).gates@.len() {
                    assert(self.gates@[i] == old(self).gates@[i]);
                }
            }
            assert forall|i: int, j: int|
                0 <= i < j < self.gates@.len() && (#[trigger] self.gates@[j]).is_input()
                implies (#[trigger] self.gates@[i]).is_input() by {
                assert(self.gates@[i] == old(self).gates@[i]);
                assert(self.gates@[j] == old(self).gates@[j]);
            }
        }
        w
    }

    /// Appends `x XOR y`.
    pub fn xor(&mut self, x: u32, y: u32) -> (w: u32)
        requires
            old(self).wf(),
            x < old(self).gates().len(),
            y < old(self).gates().len(),
            old(self).room(1),
        ensures
            final(self).wf(),
            final(self).extends(old(self)),
            final(self).gates().len() == old(self).gates().len() + 1,
            final(self).gates() == old(self).gates().push(Gate::Xor(x, y)),
            w == old(self).gates().len(),
            final(self).wires()[w as int] == (old(self).wires()[x as int] != old(self).wires()[y as int]),
    {
        self.push_gate(Gate::Xor(x, y))
    }

    /// Appends `x AND y`.
    pub fn and(&mut self, x: u32, y: u32) -> (w: u32)
        requires
            old(self).wf(),
            x < old(self).gates().len(),
            y < old(self).gates().len(),
            old(self).room(1),
        ensures
            final(self).wf(),
            final(self).extends(old(self)),
            final(self).gates().len() == old(self).gates().len() + 1,
            final(self).gates() == old(self).gates().push(Gate::And(x, y)),
            w == old(self).gates().len(),
            final(self).wires()[w as int] == (old(self).wires()[x as int] && old(self).wires()[y as int]),
    {
        self.push_gate(Gate::And(x, y))
    }

    /// Appends the gates of `op` on the bits `x` and `y`.
    pub fn bit_op(&mut self, op: BitwiseOp, x: u32, y: u32) -> (w: u32)
        requires
            old(self).wf(),
            x < old(self).gates().len(),
            y < old(self).gates().len(),
            old(self).room(op.cost()),
        ensures
            final(self).wf(),
            final(self).extends(old(self)),
            final(self).gates().len() == old(self).gates().len() + op.cost(),
            final(self).gates() == old(self).gates() + op.gates_at(x, y, old(self).gates().len()),
            w == old(self).gates().len() + op.cost() - 1,
            w < final(self).gates().len(),
            final(self).wires()[w as int] == op.apply(old(self).wires()[x as int], old(self).wires()[y as int]),
    {
        let ghost s0 = *self;
        match op {
            BitwiseOp::And => {
                let r = self.and(x, y);
                proof {
                    assert(self.gates() =~= s0.gates() + op.gates_at(x, y, s0.gates().len()));
                }
                r
            },
            BitwiseOp::Xor => {
                let r = self.xor(x, y);
                proof {
                    assert(self.gates() =~= s0.gates() + op.gates_at(x, y, s0.gates().len()));
                }
                r
            },
            BitwiseOp::Nand => {
                let a = self.and(x, y);
                let ghost s1 = *self;
                let r = self.not(a);
                proof {
                    self.lemma_extends_trans(&s1, &s0);
                    self.lemma_extends_keeps(&s1);
                    assert(self.gates() =~= s0.gates() + op.gates_at(x, y, s0.gates().len()));
                }
                r
            },
            BitwiseOp::Xnor => {
                let a = self.xor(x, y);
                let ghost s1 = *self;
                let r = self.not(a);
                proof {
                    self.lemma_extends_trans(&s1, &s0);
                    self.lemma_extends_keeps(&s1);
                    assert(self.gates() =~= s0.gates() + op.gates_at(x, y, s0.gates().len()));
                }
                r
            },
            BitwiseOp::Or | BitwiseOp::Nor => {
                let t = self.xor(x, y);
                let ghost s1 = *self;
                let a = self.and(x, y);
                let ghost s2 = *self;
                let o = self.xor(t, a);
                let ghost s3 = *self;
                proof {
                    self.lemma_extends_trans(&s2, &s1);
                    self.lemma_extends_trans(&s1, &s0);
                    s2.lemma_extends_keeps(&s1);
                    assert(s2.wires().subrange(0, s1.gates().len() as int)[t as int] == s2.wires()[t as int]);
                    assert(s1.wires().subrange(0, s0.gates().len() as int)[x as int] == s1.wires()[x as int]);
                    s1.lemma_extends_keeps(&s0);
                    assert(s1.wires().subrange(0, s0.gates().len() as int)[y as int] == s1.wires()[y as int]);
                }
                if op == BitwiseOp::Or {
                    proof {
                        assert(self.gates() =~= s0.gates() + op.gates_at(x, y, s0.gates().len()));
                    }
                    o
                } else {
                    let r = self.not(o);
                    proof {
                        self.lemma_extends_trans(&s3, &s0);
                        assert(self.gates() =~= s0.gates() + op.gates_at(x, y, s0.gates().len()));
                    }
                    r
                }
            },
        }
    }

    /// Appends `op` bit by bit on two operands of equal width.
    pub fn bitwise(&mut self, op: BitwiseOp, a: &Vec<u32>, b: &Vec<u32>) -> (r: Vec<u32>)
        requires
            old(self).wf(),
            a@.len() == b@.len(),
            old(self).valid(a@),
            old(self).valid(b@),
            old(self).room(a@.len() * op.cost()),
        ensures
            final(self).wf(),
            final(self).extends(old(self)),
            final(self).gates().len() == old(self).gates().len() + a@.len() * op.cost(),
            r@.len() == a@.len(),
            final(self).valid(r@),
            final(self).read(r@) == op.apply_bits(old(self).read(a@), old(self).read(b@)),
            final(self).gates() == old(self).gates() + op.bitwise_gates(a@, b@, old(self).gates().len()),
            forall|k: int| 0 <= k < r@.len() ==> r@[k] == old(self).gates().len() + k * op.cost() + op.cost() - 1,
    {
        let n = a.len();
        let mut r: Vec<u32> = Vec::new();
        let mut i: usize = 0;
        let ghost base = self.gates().len();
        proof {
            assert(self.gates().subrange(0, self.gates().len() as int) =~= self.gates());
            assert(self.gates() =~= old(self).gates() + op.bitwise_gates(a@.subrange(0, 0), b@, base));
        }
        while i < n
            invariant
                n == a@.len(),
                n == b@.len(),
                0 <= i <= n,
                old(self).wf(),
                old(self).valid(a@),
                old(self).valid(b@),
                old(self).room(a@.len() * op.cost()),
                self.wf(),
                self.extends(old(self)),
                self.gates().len() == old(self).gates().len() + i * op.cost(),
                r@.len() == i,
                self.valid(r@),
                self.read(r@) == op.apply_bits(old(self).read(a@), old(self).read(b@)).subrange(0, i as int),
                base == old(self).gates().len(),
                self.gates() == old(self).gates() + op.bitwise_gates(a@.subrange(0, i as int), b@, base),
                forall|k: int| 0 <= k < i ==> r@[k] == base + k * op.cost() + op.cost() - 1,
            decreases n - i,
        {
            let ghost prev = *self;
            let ghost r0 = r@;
            proof {
                assert(i * op.cost() + op.cost() <= n * op.cost()) by (nonlinear_arith)
                    requires i < n;
                self.lemma_extends_read(old(self), a@);
                self.lemma_extends_read(old(self), b@);
                assert(a@[i as int] < self.gates().len());
                assert(b@[i as int] < self.gates().len());
            }
            let w = self.bit_op(op, a[i], b[i]);
            r.push(w);
            proof {
                self.lemma_extends_trans(&prev, old(self));
                self.lemma_extends_read(&prev, r0);
                assert(r@.drop_last() =~= r0);
                assert(prev.read(a@)[i as int] == old(self).read(a@)[i as int]);
                assert(prev.read(b@)[i as int] == old(self).read(b@)[i as int]);
                assert(self.read(r@) =~= op.apply_bits(old(self).read(a@), old(self).read(b@)).subrange(0, i + 1));
                assert((i + 1) * op.cost() == i * op.cost() + op.cost()) by (nonlinear_arith);
                let ai = a@.subrange(0, i + 1);
                assert(ai.drop_last() =~= a@.subrange(0, i as int));
                assert(b@.subrange(0, i as int) =~= b@.subrange(0, i as int).subrange(0, i as int));
                lemma_bitwise_gates_prefix(op, a@.subrange(0, i as int), b@, base);
                lemma_bitwise_gates_prefix(op, ai, b@, base);
                assert(self.gates() =~= old(self).gates() + op.bitwise_gates(ai, b@, base));
            }
            i += 1;
        }
        proof {
            assert(op.apply_bits(old(self).read(a@), old(self).read(b@)).subrange(0, n as int) =~= op.apply_bits(old(self).read(a@), old(self).read(b@)));
            assert(a@.subrange(0, n as int) =~= a@);
        }
        r
    }

    /// Appends `NOT` of every bit of `a`.
    pub fn not_bits(&mut self, a: &Vec<u32>) -> (r: Vec<u32>)
        requires
            old(self).wf(),
            old(self).valid(a@),
            old(self).room(a@.len()),
        ensures
            final(self).wf(),
            final(self).extends(old(self)),
            final(self).gates().len() == old(self).gates().len() + a@.len(),
            r@.len() == a@.len(),
            final(self).valid(r@),
            final(self).read(r@) == Seq::new(a@.len(), |i: int| !old(self).read(a@)[i]),
            final(self).gates() == old(self).gates() + Seq::new(a@.len(), |i: int| Gate::Not(a@[i])),
            forall|k: int| 0 <= k < r@.len() ==> r@[k] == old(self).gates().len() + k,
    {
        let n = a.len();
        let mut r: Vec<u32> = Vec::new();
        let mut i: usize = 0;
        proof {
            assert(self.gates().subrange(0, self.gates().len() as int) =~= self.gates());
            assert(self.gates() =~= old(self).gates() + Seq::new(0, |k: int| Gate::Not(a@[k])));
        }
        while i < n
            invariant
                n == a@.len(),
                0 <= i <= n,
                old(self).wf(),
                old(self).valid(a@),
                old(self).room(n as nat),
                self.wf(),
                self.extends(old(self)),
                self.gates().len() == old(self).gates().len() + i,
                r@.len() == i,
                self.valid(r@),
                self.read(r@) == Seq::new(a@.len(), |k: int| !old(self).read(a@)[k]).subrange(0, i as int),
                self.gates() == old(self).gates() + Seq::new(i as nat, |k: int| Gate::Not(a@[k])),
                forall|k: int| 0 <= k < i ==> r@[k] == old(self).gates().len() + k,
            decreases n - i,
        {
            let ghost prev = *self;
            let ghost r0 = r@;
            proof {
                self.lemma_extends_read(old(self), a@);
                assert(a@[i as int] < self.gates().len());
            }
            let w = self.not(a[i]);
            r.push(w);
            proof {
                self.lemma_extends_trans(&prev, old(self));
                self.lemma_extends_read(&prev, r0);
                assert(r@.drop_last() =~= r0);
                assert(prev.read(a@)[i as int] == old(self).read(a@)[i as int]);
                assert(self.read(r@) =~= Seq::new(a@.len(), |k: int| !old(self).read(a@)[k]).subrange(0, i + 1));
                assert(self.gates() =~= old(self).gates() + Seq::new((i + 1) as nat, |k: int| Gate::Not(a@[k])));
            }
            i += 1;
        }
        proof {
            assert(Seq::new(a@.len(), |k: int| !old(self).read(a@)[k]).subrange(0, n as int) =~= Seq::new(a@.len(), |k: int| !old(self).read(a@)[k]));
        }
        r
    }

    /// One bit of a multiplexer: `f XOR (c AND (t XOR f))`, three gates.
    fn mux_bit(&mut self, c: u32, t: u32, f: u32) -> (w: u32)
        requires
            old(self).wf(),
            c < old(self).gates().len(),
            t < old(self).gates().len(),
            f < old(self).gates().len(),
            old(self).room(3),
        ensures
            final(self).wf(),
            final(self).extends(old(self)),
            final(self).gates().len() == old(self).gates().len() + 3,
            w < final(self).gates().len(),
            final(self).wires()[w as int] == if old(self).wires()[c as int] {
                old(self).wires()[t as int]
            } else {
                old(self).wires()[f as int]
            },
    {
        let ghost s0 = *self;
        let d = self.xor(t, f);
        let ghost s1 = *self;
        let s = self.and(c, d);
        let ghost s2 = *self;
        let w = self.xor(f, s);
        proof {
            s1.lemma_extends_keeps(&s0);
            s2.lemma_extends_keeps(&s1);
            assert(s1.wires().subrange(0, s0.gates().len() as int)[c as int] == s1.wires()[c as int]);
            assert(s2.wires().subrange(0, s1.gates().len() as int)[f as int] == s2.wires()[f as int]);
            assert(s1.wires().subrange(0, s0.gates().len() as int)[f as int] == s1.wires()[f as int]);
            self.lemma_extends_trans(&s2, &s1);
            self.lemma_extends_trans(&s1, &s0);
        }
        w
    }

    /// A multiplexer: the bits of `t` where the bit on `c` is set, else those
    /// of `f`. Three gates per bit, whatever the bit on `c`.
    pub fn mux(&mut self, c: u32, t: &Vec<u32>, f: &Vec<u32>) -> (r: Vec<u32>)
        requires
            old(self).wf(),
            c < old(self).gates().len(),
            t@.len() == f@.len(),
            old(self).valid(t@),
            old(self).valid(f@),
            old(self).room(3 * t@.len()),
        ensures
            final(self).wf(),
            final(self).extends(old(self)),
            final(self).gates().len() == old(self).gates().len() + 3 * t@.len(),
            r@.len() == t@.len(),
            final(self).valid(r@),
            final(self).read(r@) == if old(self).wires()[c as int] {
                old(self).read(t@)
            } else {
                old(self).read(f@)
            },
    {
        let n = t.len();
        let ghost want = if old(self).wires()[c as int] {
            old(self).read(t@)
        } else {
            old(self).read(f@)
        };
        let mut r: Vec<u32> = Vec::new();
        let mut i: usize = 0;
        proof {
            assert(self.gates().subrange(0, self.gates().len() as int) =~= self.gates());
        }
        while i < n
            invariant
                n == t@.len(),
                n == f@.len(),
                0 <= i <= n,
                c < old(self).gates().len(),
                want == if old(self).wires()[c as int] {
                    old(self).read(t@)
                } else {
                    old(self).read(f@)
                },
                old(self).wf(),
                old(self).valid(t@),
                old(self).valid(f@),
                old(self).room(3 * n as nat),
                self.wf(),
                self.extends(old(self)),
                self.gates().len() == old(self).gates().len() + 3 * i,
                r@.len() == i,
                self.valid(r@),
                self.read(r@) == want.subrange(0, i as int),
            decreases n - i,
        {
            let ghost prev = *self;
            let ghost r0 = r@;
            proof {
                self.lemma_extends_read(old(self), t@);
                self.lemma_extends_read(old(self), f@);
                self.lemma_extends_read(old(self), seq![c]);
                assert(seq![c][0] == c);
                assert(t@[i as int] < self.gates().len());
                assert(f@[i as int] < self.gates().len());
                assert(self.read(seq![c])[0] == old(self).read(seq![c])[0]);
            }
            let w = self.mux_bit(c, t[i], f[i]);
            r.push(w);
            proof {
                self.lemma_extends_trans(&prev, old(self));
                self.lemma_extends_read(&prev, r0);
                assert(r@.drop_last() =~= r0);
                assert(prev.read(t@)[i as int] == old(self).read(t@)[i as int]);
                assert(prev.read(f@)[i as int] == old(self).read(f@)[i as int]);
                assert(self.read(r@) =~= want.subrange(0, i + 1));
            }
            i += 1;
        }
        proof {
            assert(want.subrange(0, n as int) =~= want);
        }
        r
    }

    /// The wire that carries `false`: `w XOR w` on the first wire, made once.
    pub fn constant_false(&mut self) -> (w: u32)
        requires
            old(self).wf(),
            old(self).gates().len() > 0,
            old(self).room(1),
        ensures
            final(self).wf(),
            final(self).extends(old(self)),
            final(self).gates().len() <= old(self).gates().len() + 1,
            old(self).constants_ready() ==> final(self).gates() == old(self).gates(),
            final(self).has_false(),
            w < final(self).gates().len(),
            !final(self).wires()[w as int],
    {
        match self.constant_false {
            Some(z) => {
                proof {
                    assert(self.gates().subrange(0, self.gates().len() as int) =~= self.gates());
                }
                z
            },
            None => {
                let z = self.xor(0, 0);
                self.constant_false = Some(z);
                z
            },
        }
    }

    /// The wire that carries `true`: `NOT` of the false wire, made once.
    pub fn constant_true(&mut self) -> (w: u32)
        requires
            old(self).wf(),
            old(self).gates().len() > 0,
            old(self).room(2),
        ensures
            final(self).wf(),
            final(self).extends(old(self)),
            final(self).gates().len() <= old(self).gates().len() + 2,
            old(self).constants_ready() ==> final(self).gates() == old(self).gates(),
            final(self).constants_ready(),
            w < final(self).gates().len(),
            final(self).wires()[w as int],
    {
        match self.constant_true {
            Some(o) => {
                proof {
                    assert(self.gates().subrange(0, self.gates().len() as int) =~= self.gates());
                }
                o
            },
            None => {
                let ghost s0 = *self;
                let z = self.constant_false();
                let ghost s1 = *self;
                let o = self.not(z);
                proof {
                    self.lemma_extends_trans(&s1, &s0);
                }
                self.constant_true = Some(o);
                o
            },
        }
    }

    /// The wires of a constant: each bit is the false or the true wire.
    pub fn constant_bits(&mut self, bits: &Vec<bool>) -> (r: Vec<u32>)
        requires
            old(self).wf(),
            old(self).gates().len() > 0,
            old(self).room(3),
        ensures
            final(self).wf(),
            final(self).extends(old(self)),
            final(self).gates().len() <= old(self).gates().len() + 3,
            old(self).constants_ready() ==> final(self).gates() == old(self).gates(),
            final(self).valid(r@),
            final(self).read(r@) == bits@,
    {
        let ghost s0 = *self;
        let z = self.constant_false();
        let ghost s1 = *self;
        let o = self.constant_true();
        proof {
            self.lemma_extends_trans(&s1, &s0);
            self.lemma_extends_keeps(&s1);
            assert(self.wires().subrange(0, s1.gates().len() as int)[z as int] == self.wires()[z as int]);
        }
        let mut r: Vec<u32> = Vec::new();
        let mut i: usize = 0;
        while i < bits.len()
            invariant
                0 <= i <= bits@.len(),
                z < self.gates().len(),
                o < self.gates().len(),
                !self.wires()[z as int],
                self.wires()[o as int],
                r@.len() == i,
                self.valid(r@),
                self.read(r@) == bits@.subrange(0, i as int),
            decreases bits@.len() - i,
        {
            if bits[i] {
                r.push(o);
            } else {
                r.push(z);
            }
            proof {
                assert(self.read(r@) =~= bits@.subrange(0, i + 1));
            }
            i += 1;
        }
        proof {
            assert(bits@.subrange(0, i as int) =~= bits@);
        }
        r
    }

    /// Compile mode: the circuit with `outputs` as its output wires, and the
    /// input bits, the contributor's followed by the evaluator's.
    pub fn compile(&self, outputs: &Vec<u32>) -> (r: (Circuit, Vec<bool>))
        requires
            self.wf(),
            self.valid(outputs@),
            outputs@.len() > 0,
        ensures
            r.0.wf(),
            r.0.gates@ == self.gates(),
            r.0.outputs@ == outputs@,
            r.0.output(self.contributor(), self.evaluator()) == self.read(outputs@),
            r.1@ == self.contributor() + self.evaluator(),
    {
        let circuit = Circuit { gates: self.gates.clone(), outputs: outputs.clone() };
        let mut inputs = self.contributor.clone();
        let mut more = self.evaluator.clone();
        inputs.append(&mut more);
        proof {
            assert(circuit.output(self.contributor(), self.evaluator()) =~= self.read(outputs@));
        }
        (circuit, inputs)
    }

    /// Execute mode: runs the circuit through the executor and returns the
    /// bits on `outputs`, or the executor's error.
    pub fn execute(&self, outputs: &Vec<u32>) -> (r: Result<Vec<bool>, ExecutionError>)
        requires
            self.wf(),
            self.valid(outputs@),
            outputs@.len() > 0,
        ensures
            r matches Ok(v) ==> v@ == self.read(outputs@),
    {
        let circuit = Circuit { gates: self.gates.clone(), outputs: outputs.clone() };
        proof {
            assert(circuit.output(self.contributor(), self.evaluator()) =~= self.read(outputs@));
        }
        match run_tandem(&circuit, &self.contributor, &self.evaluator) {
            Ok(v) => Ok(v),
            Err(e) => Err(ExecutionError::Executor(e)),
        }
    }

    /// Appends `NOT x`.
    pub fn not(&mut self, x: u32) -> (w: u32)
        requires
            old(self).wf(),
            x < old(self).gates().len(),
            old(self).room(1),
        ensures
            final(self).wf(),
            final(self).extends(old(self)),
            final(self).gates().len() == old(self).gates().len() + 1,
            final(self).gates() == old(self).gates().push(Gate::Not(x)),
            w == old(self).gates().len(),
            final(self).wires()[w as int] == !old(self).wires()[x as int],
    {
        self.push_gate(Gate::Not(x))
    }
}

} // verus!
