//! Operations on values: bitwise operators and the multiplexer are compiled to
//! circuits and run by the executor; shifts by a constant only move bits.
use crate::bits::{shl_bits, shr_bits};
use crate::builder::{BitwiseOp, CircuitBuilder, ExecutionError};
use crate::circuit::{count_contributor, count_evaluator, execute_circuit, Circuit, Gate};
use crate::signed::GarbledInt;
use crate::uint::{GarbledBoolean, GarbledUint};
use vstd::prelude::*;

verus! {

/// The widest value an operation takes: it keeps every circuit within the
/// executor's limits on gates and on AND gates.
pub const MAX_WIDTH: usize = 0x00ff_ffff;

/// The gates of the circuit for `op` on two `n`-bit operands: `n`
/// contributor inputs, `n` evaluator inputs, then the operation's gates on
/// each pair of input wires `i` and `n + i` in turn.
pub open spec fn bitwise_layout(op: BitwiseOp, n: nat) -> Seq<Gate> {
    Seq::new(n, |i: int| Gate::InContrib) + Seq::new(n, |i: int| Gate::InEval) + op.bitwise_gates(
        Seq::new(n, |i: int| i as u32),
        Seq::new(n, |i: int| (n + i) as u32),
        2 * n,
    )
}

/// The output wires of that circuit: the last gate of each pair.
pub open spec fn bitwise_outputs(op: BitwiseOp, n: nat) -> Seq<u32> {
    Seq::new(n, |i: int| (2 * n + i * op.cost() + op.cost() - 1) as u32)
}

/// The gates of the negation circuit on `n` bits: `n` contributor inputs,
/// `n` evaluator inputs holding the same operand, then `NOT` of each
/// contributor input.
pub open spec fn not_layout(n: nat) -> Seq<Gate> {
    Seq::new(n, |i: int| Gate::InContrib) + Seq::new(n, |i: int| Gate::InEval) + Seq::new(
        n,
        |i: int| Gate::Not(i as u32),
    )
}

/// The output wires of the negation circuit: its `NOT` gates.
pub open spec fn not_outputs(n: nat) -> Seq<u32> {
    Seq::new(n, |i: int| (2 * n + i) as u32)
}

/// The circuit for `op` bit by bit on `a` (the contributor's) and `b` (the
/// evaluator's). Its gates and outputs depend on the width alone; on those
/// input bits it outputs `op` applied bit by bit.
pub fn bitwise_circuit(op: BitwiseOp, a: &Vec<bool>, b: &Vec<bool>) -> (c: Circuit)
    requires
        a@.len() == b@.len(),
        0 < a@.len() <= MAX_WIDTH,
    ensures
        c.wf(),
        c.gates@ == bitwise_layout(op, a@.len()),
        c.outputs@ == bitwise_outputs(op, a@.len()),
        count_contributor(c.gates@) == a@.len(),
        count_evaluator(c.gates@) == b@.len(),
        c.output(a@, b@) == op.apply_bits(a@, b@),
{
    let ghost n = a@.len();
    let mut builder = CircuitBuilder::new();
    let x = builder.add_contributor_input(a);
    let ghost b1 = builder;
    let y = builder.add_evaluator_input(b);
    let ghost b2 = builder;
    proof {
        builder.lemma_keeps_read(&b1, x@);
        assert(a@.len() * op.cost() <= 4 * a@.len()) by (nonlinear_arith)
            requires
                op.cost() <= 4,
        ;
    }
    let z = builder.bitwise(op, &x, &y);
    proof {
        assert(b2.read(x@) == a@);
        assert(x@ =~= Seq::new(n, |i: int| i as u32));
        assert(y@ =~= Seq::new(n, |i: int| (n + i) as u32));
        assert(builder.gates() =~= bitwise_layout(op, n));
        assert(z@ =~= bitwise_outputs(op, n));
        assert(builder.contributor() =~= a@);
        assert(builder.evaluator() =~= b@);
    }
    let (c, _inputs) = builder.compile(&z);
    c
}

/// The negation circuit on `a`, held by both parties. Its gates and outputs
/// depend on the width alone; on those input bits it outputs `NOT` of each.
pub fn not_circuit(a: &Vec<bool>) -> (c: Circuit)
    requires
        0 < a@.len() <= MAX_WIDTH,
    ensures
        c.wf(),
        c.gates@ == not_layout(a@.len()),
        c.outputs@ == not_outputs(a@.len()),
        count_contributor(c.gates@) == a@.len(),
        count_evaluator(c.gates@) == a@.len(),
        c.output(a@, a@) == Seq::new(a@.len(), |i: int| !a@[i]),
{
    let ghost n = a@.len();
    let mut builder = CircuitBuilder::new();
    let x = builder.add_contributor_input(a);
    let ghost b1 = builder;
    builder.add_evaluator_input(a);
    let ghost b2 = builder;
    proof {
        builder.lemma_keeps_read(&b1, x@);
    }
    let z = builder.not_bits(&x);
    proof {
        assert(x@ =~= Seq::new(n, |i: int| i as u32));
        assert(builder.gates() =~= not_layout(n));
        assert(z@ =~= not_outputs(n));
        assert(builder.contributor() =~= a@);
        assert(builder.evaluator() =~= a@);
        assert(builder.read(z@) =~= Seq::new(n, |i: int| !a@[i]));
    }
    let (c, _inputs) = builder.compile(&z);
    c
}

/// Runs `op` bit by bit on `a` (the contributor's) and `b` (the evaluator's)
/// through the executor, with the circuit of `bitwise_circuit`.
pub fn run_bitwise(op: BitwiseOp, a: &Vec<bool>, b: &Vec<bool>) -> (r: Result<Vec<bool>, ExecutionError>)
    requires
        a@.len() == b@.len(),
        0 < a@.len() <= MAX_WIDTH,
    ensures
        r matches Ok(v) ==> v@ == op.apply_bits(a@, b@),
{
    let c = bitwise_circuit(op, a, b);
    match execute_circuit(&c, a, b) {
        Ok(v) => Ok(v),
        Err(e) => Err(ExecutionError::Executor(e)),
    }
}

/// Runs `NOT` on every bit of `a` through the executor, with the circuit of
/// `not_circuit`.
pub fn run_not(a: &Vec<bool>) -> (r: Result<Vec<bool>, ExecutionError>)
    requires
        0 < a@.len() <= MAX_WIDTH,
    ensures
        r matches Ok(v) ==> v@ == Seq::new(a@.len(), |i: int| !a@[i]),
{
    let c = not_circuit(a);
    match execute_circuit(&c, a, a) {
        Ok(v) => Ok(v),
        Err(e) => Err(ExecutionError::Executor(e)),
    }
}

/// Runs a multiplexer: `t` where `c` is set, else `f`.
pub fn run_mux(c: bool, t: &Vec<bool>, f: &Vec<bool>) -> (r: Result<Vec<bool>, ExecutionError>)
    requires
        t@.len() == f@.len(),
        0 < t@.len() <= MAX_WIDTH,
    ensures
        r matches Ok(v) ==> v@ == if c {
            t@
        } else {
            f@
        },
{
    let mut builder = CircuitBuilder::new();
    let cw = builder.add_contributor_input(&vec![c]);
    let ghost b1 = builder;
    let tw = builder.add_contributor_input(t);
    let ghost b2 = builder;
    let fw = builder.add_evaluator_input(f);
    proof {
        b2.lemma_keeps_read(&b1, cw@);
        builder.lemma_keeps_read(&b2, cw@);
        builder.lemma_keeps_read(&b2, tw@);
        assert(b1.read(cw@)[0] == c);
        assert(builder.read(cw@)[0] == builder.wires()[cw@[0] as int]);
    }
    let z = builder.mux(cw[0], &tw, &fw);
    builder.execute(&z)
}

/// Shifts left by `shift` in place: the high bits drop, zeros enter low.
pub fn shift_bits_left(bits: &mut Vec<bool>, shift: usize)
    ensures
        final(bits)@ == shl_bits(old(bits)@, shift as nat),
{
    let n = bits.len();
    let steps = if shift < n {
        shift
    } else {
        n
    };
    let mut k: usize = 0;
    proof {
        assert(bits@ =~= shl_bits(old(bits)@, 0));
    }
    while k < steps
        invariant
            steps <= n,
            n == old(bits)@.len(),
            0 <= k <= steps,
            bits@ == shl_bits(old(bits)@, k as nat),
        decreases steps - k,
    {
        bits.remove(n - 1);
        bits.insert(0, false);
        proof {
            assert(bits@ =~= shl_bits(old(bits)@, (k + 1) as nat));
        }
        k += 1;
    }
    proof {
        assert(shl_bits(old(bits)@, steps as nat) =~= shl_bits(old(bits)@, shift as nat));
    }
}

/// Shifts right by `shift` in place: the low bits drop, zeros enter high.
pub fn shift_bits_right(bits: &mut Vec<bool>, shift: usize)
    ensures
        final(bits)@ == shr_bits(old(bits)@, shift as nat),
{
    let n = bits.len();
    let steps = if shift < n {
        shift
    } else {
        n
    };
    let mut k: usize = 0;
    proof {
        assert(bits@ =~= shr_bits(old(bits)@, 0));
    }
    while k < steps
        invariant
            steps <= n,
            n == old(bits)@.len(),
            0 <= k <= steps,
            bits@ == shr_bits(old(bits)@, k as nat),
        decreases steps - k,
    {
        bits.remove(0);
        bits.push(false);
        proof {
            assert(bits@ =~= shr_bits(old(bits)@, (k + 1) as nat));
        }
        k += 1;
    }
    proof {
        assert(shr_bits(old(bits)@, steps as nat) =~= shr_bits(old(bits)@, shift as nat));
    }
}

impl<const N: usize> GarbledUint<N> {
    /// Bitwise exclusive or, computed by a circuit.
    pub fn bitxor(&self, rhs: &Self) -> (r: Result<Self, ExecutionError>)
        requires
            self.wf(),
            rhs.wf(),
            0 < N <= MAX_WIDTH,
        ensures
            r matches Ok(v) ==> v.wf() && v@ == BitwiseOp::Xor.apply_bits(self@, rhs@),
    {
        match run_bitwise(BitwiseOp::Xor, &self.bits, &rhs.bits) {
            Ok(bits) => Ok(GarbledUint { bits }),
            Err(e) => Err(e),
        }
    }

    /// Bitwise and, computed by a circuit.
    pub fn bitand(&self, rhs: &Self) -> (r: Result<Self, ExecutionError>)
        requires
            self.wf(),
            rhs.wf(),
            0 < N <= MAX_WIDTH,
        ensures
            r matches Ok(v) ==> v.wf() && v@ == BitwiseOp::And.apply_bits(self@, rhs@),
    {
        match run_bitwise(BitwiseOp::And, &self.bits, &rhs.bits) {
            Ok(bits) => Ok(GarbledUint { bits }),
            Err(e) => Err(e),
        }
    }

    /// Bitwise or, computed by a circuit as `(a XOR b) XOR (a AND b)`.
    pub fn bitor(&self, rhs: &Self) -> (r: Result<Self, ExecutionError>)
        requires
            self.wf(),
            rhs.wf(),
            0 < N <= MAX_WIDTH,
        ensures
            r matches Ok(v) ==> v.wf() && v@ == BitwiseOp::Or.apply_bits(self@, rhs@),
    {
        match run_bitwise(BitwiseOp::Or, &self.bits, &rhs.bits) {
            Ok(bits) => Ok(GarbledUint { bits }),
            Err(e) => Err(e),
        }
    }

    /// Bitwise not-and, computed by a circuit.
    pub fn nand(self, rhs: Self) -> (r: Result<Self, ExecutionError>)
        requires
            self.wf(),
            rhs.wf(),
            0 < N <= MAX_WIDTH,
        ensures
            r matches Ok(v) ==> v.wf() && v@ == BitwiseOp::Nand.apply_bits(self@, rhs@),
    {
        match run_bitwise(BitwiseOp::Nand, &self.bits, &rhs.bits) {
            Ok(bits) => Ok(GarbledUint { bits }),
            Err(e) => Err(e),
        }
    }

    /// Bitwise not-or, computed by a circuit.
    pub fn nor(self, rhs: Self) -> (r: Result<Self, ExecutionError>)
        requires
            self.wf(),
            rhs.wf(),
            0 < N <= MAX_WIDTH,
        ensures
            r matches Ok(v) ==> v.wf() && v@ == BitwiseOp::Nor.apply_bits(self@, rhs@),
    {
        match run_bitwise(BitwiseOp::Nor, &self.bits, &rhs.bits) {
            Ok(bits) => Ok(GarbledUint { bits }),
            Err(e) => Err(e),
        }
    }

    /// Bitwise not-exclusive-or, computed by a circuit.
    pub fn xnor(self, rhs: Self) -> (r: Result<Self, ExecutionError>)
        requires
            self.wf(),
            rhs.wf(),
            0 < N <= MAX_WIDTH,
        ensures
            r matches Ok(v) ==> v.wf() && v@ == BitwiseOp::Xnor.apply_bits(self@, rhs@),
    {
        match run_bitwise(BitwiseOp::Xnor, &self.bits, &rhs.bits) {
            Ok(bits) => Ok(GarbledUint { bits }),
            Err(e) => Err(e),
        }
    }

    /// Bitwise negation, computed by a circuit.
    pub fn not(&self) -> (r: Result<Self, ExecutionError>)
        requires
            self.wf(),
            0 < N <= MAX_WIDTH,
        ensures
            r matches Ok(v) ==> v.wf() && v@ == Seq::new(self@.len(), |i: int| !self@[i]),
    {
        match run_not(&self.bits) {
            Ok(bits) => Ok(GarbledUint { bits }),
            Err(e) => Err(e),
        }
    }

    /// Selects `if_true` where the condition bit is set, else `if_false`,
    /// with a circuit that evaluates both.
    pub fn mux(condition: &GarbledBoolean, if_true: &Self, if_false: &Self) -> (r: Result<Self, ExecutionError>)
        requires
            condition.wf(),
            if_true.wf(),
            if_false.wf(),
            0 < N <= MAX_WIDTH,
        ensures
            r matches Ok(v) ==> v.wf() && v@ == if condition@[0] {
                if_true@
            } else {
                if_false@
            },
    {
        match run_mux(condition.bits[0], &if_true.bits, &if_false.bits) {
            Ok(bits) => Ok(GarbledUint { bits }),
            Err(e) => Err(e),
        }
    }

    /// Logical shift left by a constant: no gates, the bits move.
    pub fn shl(&self, shift: usize) -> (r: Self)
        requires
            self.wf(),
        ensures
            r.wf(),
            r@ == shl_bits(self@, shift as nat),
    {
        let mut bits = self.bits.clone();
        shift_bits_left(&mut bits, shift);
        GarbledUint { bits }
    }

    /// Logical shift right by a constant: no gates, the bits move.
    pub fn shr(&self, shift: usize) -> (r: Self)
        requires
            self.wf(),
        ensures
            r.wf(),
            r@ == shr_bits(self@, shift as nat),
    {
        let mut bits = self.bits.clone();
        shift_bits_right(&mut bits, shift);
        GarbledUint { bits }
    }
}

impl<const N: usize> GarbledInt<N> {
    /// Bitwise exclusive or, computed by a circuit.
    pub fn bitxor(&self, rhs: &Self) -> (r: Result<Self, ExecutionError>)
        requires
            self.wf(),
            rhs.wf(),
            0 < N <= MAX_WIDTH,
        ensures
            r matches Ok(v) ==> v.wf() && v@ == BitwiseOp::Xor.apply_bits(self@, rhs@),
    {
        match run_bitwise(BitwiseOp::Xor, &self.bits, &rhs.bits) {
            Ok(bits) => Ok(GarbledInt { bits }),
            Err(e) => Err(e),
        }
    }

    /// Bitwise and, computed by a circuit.
    pub fn bitand(&self, rhs: &Self) -> (r: Result<Self, ExecutionError>)
        requires
            self.wf(),
            rhs.wf(),
            0 < N <= MAX_WIDTH,
        ensures
            r matches Ok(v) ==> v.wf() && v@ == BitwiseOp::And.apply_bits(self@, rhs@),
    {
        match run_bitwise(BitwiseOp::And, &self.bits, &rhs.bits) {
            Ok(bits) => Ok(GarbledInt { bits }),
            Err(e) => Err(e),
        }
    }

    /// Bitwise or, computed by a circuit as `(a XOR b) XOR (a AND b)`.
    pub fn bitor(&self, rhs: &Self) -> (r: Result<Self, ExecutionError>)
        requires
            self.wf(),
            rhs.wf(),
            0 < N <= MAX_WIDTH,
        ensures
            r matches Ok(v) ==> v.wf() && v@ == BitwiseOp::Or.apply_bits(self@, rhs@),
    {
        match run_bitwise(BitwiseOp::Or, &self.bits, &rhs.bits) {
            Ok(bits) => Ok(GarbledInt { bits }),
            Err(e) => Err(e),
        }
    }

    /// Bitwise not-and, computed by a circuit.
    pub fn nand(self, rhs: Self) -> (r: Result<Self, ExecutionError>)
        requires
            self.wf(),
            rhs.wf(),
            0 < N <= MAX_WIDTH,
        ensures
            r matches Ok(v) ==> v.wf() && v@ == BitwiseOp::Nand.apply_bits(self@, rhs@),
    {
        match run_bitwise(BitwiseOp::Nand, &self.bits, &rhs.bits) {
            Ok(bits) => Ok(GarbledInt { bits }),
            Err(e) => Err(e),
        }
    }

    /// Bitwise not-or, computed by a circuit.
    pub fn nor(self, rhs: Self) -> (r: Result<Self, ExecutionError>)
        requires
            self.wf(),
            rhs.wf(),
            0 < N <= MAX_WIDTH,
        ensures
            r matches Ok(v) ==> v.wf() && v@ == BitwiseOp::Nor.apply_bits(self@, rhs@),
    {
        match run_bitwise(BitwiseOp::Nor, &self.bits, &rhs.bits) {
            Ok(bits) => Ok(GarbledInt { bits }),
            Err(e) => Err(e),
        }
    }

    /// Bitwise not-exclusive-or, computed by a circuit.
    pub fn xnor(self, rhs: Self) -> (r: Result<Self, ExecutionError>)
        requires
            self.wf(),
            rhs.wf(),
            0 < N <= MAX_WIDTH,
        ensures
            r matches Ok(v) ==> v.wf() && v@ == BitwiseOp::Xnor.apply_bits(self@, rhs@),
    {
        match run_bitwise(BitwiseOp::Xnor, &self.bits, &rhs.bits) {
            Ok(bits) => Ok(GarbledInt { bits }),
            Err(e) => Err(e),
        }
    }

    /// Bitwise negation, computed by a circuit.
    pub fn not(&self) -> (r: Result<Self, ExecutionError>)
        requires
            self.wf(),
            0 < N <= MAX_WIDTH,
        ensures
            r matches Ok(v) ==> v.wf() && v@ == Seq::new(self@.len(), |i: int| !self@[i]),
    {
        match run_not(&self.bits) {
            Ok(bits) => Ok(GarbledInt { bits }),
            Err(e) => Err(e),
        }
    }

    /// Selects `if_true` where the condition bit is set, else `if_false`,
    /// with a circuit that evaluates both.
    pub fn mux(condition: &GarbledBoolean, if_true: &Self, if_false: &Self) -> (r: Result<Self, ExecutionError>)
        requires
            condition.wf(),
            if_true.wf(),
            if_false.wf(),
            0 < N <= MAX_WIDTH,
        ensures
            r matches Ok(v) ==> v.wf() && v@ == if condition@[0] {
                if_true@
            } else {
                if_false@
            },
    {
        match run_mux(condition.bits[0], &if_true.bits, &if_false.bits) {
            Ok(bits) => Ok(GarbledInt { bits }),
            Err(e) => Err(e),
        }
    }

    /// Logical shift left by a constant: no gates, the bits move.
    pub fn shl(&self, shift: usize) -> (r: Self)
        requires
            self.wf(),
        ensures
            r.wf(),
            r@ == shl_bits(self@, shift as nat),
    {
        let mut bits = self.bits.clone();
        shift_bits_left(&mut bits, shift);
        GarbledInt { bits }
    }

    /// Logical shift right by a constant: no gates, the bits move.
    pub fn shr(&self, shift: usize) -> (r: Self)
        requires
            self.wf(),
        ensures
            r.wf(),
            r@ == shr_bits(self@, shift as nat),
    {
        let mut bits = self.bits.clone();
        shift_bits_right(&mut bits, shift);
        GarbledInt { bits }
    }
}

} // verus!
