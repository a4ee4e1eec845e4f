//! The front end: an expression tree over fixed-width values, its meaning,
//! and its lowering into one growing circuit. Both branches of an `if` are
//! built and joined by a multiplexer; `let` binds a result's wires to a new
//! variable, which is also how compound assignment lowers.
use crate::bits::{
    bits_of, bits_signed, bits_value, lemma_bits_of_own_value, shl_bits, shr_bits,
};
use crate::builder::{BitwiseOp, CircuitBuilder, ExecutionError};
use crate::circuit::{Circuit, MAX_GATES};
use vstd::arithmetic::power2::pow2;
use vstd::prelude::*;

verus! {

/// The arithmetic operators, modulo `2^n`.
#[derive(Clone, Copy, Debug, PartialEq, Eq, Structural)]
pub enum ArithOp {
    Add,
    Sub,
    Mul,
    Div,
    Rem,
}

/// The comparisons; each gives one bit.
#[derive(Clone, Copy, Debug, PartialEq, Eq, Structural)]
pub enum CmpOp {
    Eq,
    Ne,
    Lt,
    Le,
    Gt,
    Ge,
    SignedLt,
}

/// An expression over fixed-width values. Variables are numbered: first the
/// parameters, then each `Let` in scope, innermost last.
#[derive(Debug)]
pub enum Expr {
    Var(usize),
    /// A constant, given by its bits at the width where it is used.
    Lit(Vec<bool>),
    Arith(ArithOp, Box<Expr>, Box<Expr>),
    Bitwise(BitwiseOp, Box<Expr>, Box<Expr>),
    Not(Box<Expr>),
    Neg(Box<Expr>),
    Compare(CmpOp, Box<Expr>, Box<Expr>),
    /// `if c { t } else { f }` with a one-bit condition.
    If(Box<Expr>, Box<Expr>, Box<Expr>),
    Shl(Box<Expr>, usize),
    Shr(Box<Expr>, usize),
    /// Binds the first expression's value as the next variable in the second.
    Let(Box<Expr>, Box<Expr>),
}

/// Why an expression could not be lowered.
#[derive(Clone, Copy, Debug, PartialEq, Eq, Structural)]
pub enum LowerError {
    /// An unbound variable, operands of different widths, an empty operand,
    /// or a condition that is not one bit.
    Malformed,
    /// The circuit would outgrow the executor's gate limit, or an operand is
    /// wider than the widest arithmetic this lowering takes.
    TooLarge,
    /// The expression's value has no bits, and a circuit needs an output.
    Empty,
}

/// The bits of an arithmetic result on two operands of one width.
pub open spec fn arith_value(op: ArithOp, x: Seq<bool>, y: Seq<bool>) -> Seq<bool> {
    let n = x.len();
    let a = bits_value(x);
    let b = bits_value(y);
    let m = pow2(n);
    match op {
        ArithOp::Add => bits_of((a + b) % m, n),
        ArithOp::Sub => bits_of(((a - b) % (m as int)) as nat, n),
        ArithOp::Mul => bits_of((a * b) % m, n),
        ArithOp::Div => if b == 0 {
            bits_of((m - 1) as nat, n)
        } else {
            bits_of(a / b, n)
        },
        ArithOp::Rem => if b == 0 {
            x
        } else {
            bits_of(a % b, n)
        },
    }
}

/// The truth of a comparison.
pub open spec fn compare_value(op: CmpOp, x: Seq<bool>, y: Seq<bool>) -> bool {
    match op {
        CmpOp::Eq => x == y,
        CmpOp::Ne => x != y,
        CmpOp::Lt => bits_value(x) < bits_value(y),
        CmpOp::Le => bits_value(x) <= bits_value(y),
        CmpOp::Gt => bits_value(x) > bits_value(y),
        CmpOp::Ge => bits_value(x) >= bits_value(y),
        CmpOp::SignedLt => bits_signed(x) < bits_signed(y),
    }
}

/// Two operands of one nonzero width.
pub open spec fn same_width(x: Seq<bool>, y: Seq<bool>) -> bool {
    x.len() == y.len() && x.len() > 0
}

/// The value of an expression, or `None` where it is malformed.
pub open spec fn eval(e: Expr, env: Seq<Seq<bool>>) -> Option<Seq<bool>>
    decreases e,
{
    match e {
        Expr::Var(i) => if i < env.len() {
            Some(env[i as int])
        } else {
            None
        },
        Expr::Lit(bits) => Some(bits@),
        Expr::Arith(op, x, y) => match (eval(*x, env), eval(*y, env)) {
            (Some(a), Some(b)) => if same_width(a, b) {
                Some(arith_value(op, a, b))
            } else {
                None
            },
            _ => None,
        },
        Expr::Bitwise(op, x, y) => match (eval(*x, env), eval(*y, env)) {
            (Some(a), Some(b)) => if same_width(a, b) {
                Some(op.apply_bits(a, b))
            } else {
                None
            },
            _ => None,
        },
        Expr::Not(x) => match eval(*x, env) {
            Some(a) => if a.len() > 0 {
                Some(Seq::new(a.len(), |i: int| !a[i]))
            } else {
                None
            },
            None => None,
        },
        Expr::Neg(x) => match eval(*x, env) {
            Some(a) => if a.len() > 0 {
                Some(bits_of(((0 - bits_value(a)) % (pow2(a.len()) as int)) as nat, a.len()))
            } else {
                None
            },
            None => None,
        },
        Expr::Compare(op, x, y) => match (eval(*x, env), eval(*y, env)) {
            (Some(a), Some(b)) => if same_width(a, b) {
                Some(seq![compare_value(op, a, b)])
            } else {
                None
            },
            _ => None,
        },
        Expr::If(c, t, f) => match (eval(*c, env), eval(*t, env), eval(*f, env)) {
            (Some(cv), Some(tv), Some(fv)) => if cv.len() == 1 && same_width(tv, fv) {
                Some(
                    if cv[0] {
                        tv
                    } else {
                        fv
                    },
                )
            } else {
                None
            },
            _ => None,
        },
        Expr::Shl(x, k) => match eval(*x, env) {
            Some(a) => Some(shl_bits(a, k as nat)),
            None => None,
        },
        Expr::Shr(x, k) => match eval(*x, env) {
            Some(a) => Some(shr_bits(a, k as nat)),
            None => None,
        },
        Expr::Let(x, body) => match eval(*x, env) {
            Some(a) => eval(*body, env.push(a)),
            None => None,
        },
    }
}

/// The width of an expression given the widths of the variables, or `None`
/// where it is malformed.
pub open spec fn width(e: Expr, ws: Seq<nat>) -> Option<nat>
    decreases e,
{
    match e {
        Expr::Var(i) => if i < ws.len() {
            Some(ws[i as int])
        } else {
            None
        },
        Expr::Lit(bits) => Some(bits@.len()),
        Expr::Arith(_, x, y) | Expr::Bitwise(_, x, y) => match (width(*x, ws), width(*y, ws)) {
            (Some(a), Some(b)) => if a == b && a > 0 {
                Some(a)
            } else {
                None
            },
            _ => None,
        },
        Expr::Not(x) | Expr::Neg(x) => match width(*x, ws) {
            Some(a) => if a > 0 {
                Some(a)
            } else {
                None
            },
            None => None,
        },
        Expr::Compare(_, x, y) => match (width(*x, ws), width(*y, ws)) {
            (Some(a), Some(b)) => if a == b && a > 0 {
                Some(1)
            } else {
                None
            },
            _ => None,
        },
        Expr::If(c, t, f) => match (width(*c, ws), width(*t, ws), width(*f, ws)) {
            (Some(cw), Some(tw), Some(fw)) => if cw == 1 && tw == fw && tw > 0 {
                Some(tw)
            } else {
                None
            },
            _ => None,
        },
        Expr::Shl(x, _) | Expr::Shr(x, _) => width(*x, ws),
        Expr::Let(x, body) => match width(*x, ws) {
            Some(a) => width(*body, ws.push(a)),
            None => None,
        },
    }
}

/// The widths of the variables' values.
pub open spec fn widths(env: Seq<Seq<bool>>) -> Seq<nat> {
    Seq::new(env.len(), |i: int| env[i].len())
}

/// An expression has a value exactly when it has a width, and the value has
/// that width.
pub proof fn lemma_eval_width(e: Expr, env: Seq<Seq<bool>>)
    ensures
        eval(e, env) is Some <==> width(e, widths(env)) is Some,
        eval(e, env) is Some ==> width(e, widths(env)) == Some(eval(e, env)->0.len()),
    decreases e,
{
    match e {
        Expr::Var(_) => {},
        Expr::Lit(_) => {},
        Expr::Arith(_, x, y) => {
            lemma_eval_width(*x, env);
            lemma_eval_width(*y, env);
        },
        Expr::Bitwise(_, x, y) => {
            lemma_eval_width(*x, env);
            lemma_eval_width(*y, env);
        },
        Expr::Not(x) => {
            lemma_eval_width(*x, env);
        },
        Expr::Neg(x) => {
            lemma_eval_width(*x, env);
        },
        Expr::Compare(_, x, y) => {
            lemma_eval_width(*x, env);
            lemma_eval_width(*y, env);
        },
        Expr::If(c, t, f) => {
            lemma_eval_width(*c, env);
            lemma_eval_width(*t, env);
            lemma_eval_width(*f, env);
        },
        Expr::Shl(x, _) => {
            lemma_eval_width(*x, env);
        },
        Expr::Shr(x, _) => {
            lemma_eval_width(*x, env);
        },
        Expr::Let(x, body) => {
            lemma_eval_width(*x, env);
            if let Some(a) = eval(*x, env) {
                lemma_eval_width(*body, env.push(a));
                assert(widths(env.push(a)) =~= widths(env).push(a.len()));
            }
        },
    }
}

/// An arithmetic, bitwise or comparison node.
pub open spec fn is_binary(e: Expr) -> bool {
    e is Arith || e is Bitwise || e is Compare
}

/// The value of a binary node on its operands' values.
pub open spec fn binary_value(e: Expr, a: Seq<bool>, b: Seq<bool>) -> Seq<bool> {
    match e {
        Expr::Arith(op, _, _) => arith_value(op, a, b),
        Expr::Bitwise(op, _, _) => op.apply_bits(a, b),
        Expr::Compare(op, _, _) => seq![compare_value(op, a, b)],
        _ => a,
    }
}

/// The width of an expression, zero where it is malformed.
pub open spec fn width_or_zero(e: Expr, ws: Seq<nat>) -> nat {
    match width(e, ws) {
        Some(n) => n,
        None => 0,
    }
}

/// Gates appended by an arithmetic operator on `n`-bit operands.
pub open spec fn arith_cost(op: ArithOp, n: nat) -> nat {
    match op {
        ArithOp::Add => 5 * n,
        ArithOp::Sub => 6 * n,
        ArithOp::Mul => 8 * n * n,
        ArithOp::Div => n * (9 * n + 6),
        ArithOp::Rem => n * (9 * n + 6),
    }
}

/// Gates appended by a comparison of `n`-bit operands (`n > 0`).
pub open spec fn compare_cost(op: CmpOp, n: nat) -> nat {
    match op {
        CmpOp::Eq => (3 * n - 1) as nat,
        CmpOp::Ne => 3 * n,
        CmpOp::Lt => 6 * n + 1,
        CmpOp::Le => 9 * n + 3,
        CmpOp::Gt => 6 * n + 1,
        CmpOp::Ge => 6 * n + 2,
        CmpOp::SignedLt => 6 * n + 3,
    }
}

/// Gates appended by the node itself of a binary expression.
pub open spec fn binary_cost(e: Expr, n: nat) -> nat {
    match e {
        Expr::Arith(op, _, _) => arith_cost(op, n),
        Expr::Bitwise(op, _, _) => n * op.cost(),
        Expr::Compare(op, _, _) => compare_cost(op, n),
        _ => 0,
    }
}

/// The number of gates that lowering an expression appends once the
/// constant wires exist. It depends on the expression and the variables'
/// widths only, never on the values.
pub open spec fn cost(e: Expr, ws: Seq<nat>) -> nat
    decreases e,
{
    match e {
        Expr::Var(_) => 0,
        Expr::Lit(_) => 0,
        Expr::Arith(_, x, y) => cost(*x, ws) + cost(*y, ws) + binary_cost(e, width_or_zero(*x, ws)),
        Expr::Bitwise(_, x, y) => cost(*x, ws) + cost(*y, ws) + binary_cost(e, width_or_zero(*x, ws)),
        Expr::Compare(_, x, y) => cost(*x, ws) + cost(*y, ws) + binary_cost(e, width_or_zero(*x, ws)),
        Expr::Not(x) => cost(*x, ws) + width_or_zero(*x, ws),
        Expr::Neg(x) => cost(*x, ws) + 6 * width_or_zero(*x, ws),
        Expr::If(c, t, f) => cost(*c, ws) + cost(*t, ws) + cost(*f, ws) + 3 * width_or_zero(*t, ws),
        Expr::Shl(x, _) => cost(*x, ws),
        Expr::Shr(x, _) => cost(*x, ws),
        Expr::Let(x, body) => cost(*x, ws) + cost(*body, ws.push(width_or_zero(*x, ws))),
    }
}

/// The larger of two naturals.
pub open spec fn nat_max(a: nat, b: nat) -> nat {
    if a >= b {
        a
    } else {
        b
    }
}

/// The widest value anywhere in an expression: its own width or that of any
/// part of it.
pub open spec fn max_width(e: Expr, ws: Seq<nat>) -> nat
    decreases e,
{
    let own = width_or_zero(e, ws);
    match e {
        Expr::Var(_) => own,
        Expr::Lit(_) => own,
        Expr::Arith(_, x, y) => nat_max(own, nat_max(max_width(*x, ws), max_width(*y, ws))),
        Expr::Bitwise(_, x, y) => nat_max(own, nat_max(max_width(*x, ws), max_width(*y, ws))),
        Expr::Compare(_, x, y) => nat_max(own, nat_max(max_width(*x, ws), max_width(*y, ws))),
        Expr::Not(x) => nat_max(own, max_width(*x, ws)),
        Expr::Neg(x) => nat_max(own, max_width(*x, ws)),
        Expr::Shl(x, _) => nat_max(own, max_width(*x, ws)),
        Expr::Shr(x, _) => nat_max(own, max_width(*x, ws)),
        Expr::If(c, t, f) => nat_max(
            own,
            nat_max(max_width(*c, ws), nat_max(max_width(*t, ws), max_width(*f, ws))),
        ),
        Expr::Let(x, body) => nat_max(
            own,
            nat_max(max_width(*x, ws), max_width(*body, ws.push(width_or_zero(*x, ws)))),
        ),
    }
}

/// The free gates that lowering asks for before one operation on `w`-bit
/// operands: the most any single operation appends, and some to spare.
pub open spec fn budget(w: nat) -> nat {
    17 * w * w + 20 * w + 10
}

/// Lowering `e` after `g` gates, with the constant wires in place, stays
/// within the executor's gate limit and the widest arithmetic taken.
pub open spec fn fits_after(e: Expr, ws: Seq<nat>, g: nat) -> bool {
    &&& max_width(e, ws) <= MAX_LOWER_WIDTH
    &&& g + cost(e, ws) + budget(max_width(e, ws)) <= MAX_GATES
}

/// Compiling `e` into a builder of `g` gates stays within the executor's gate limit and
/// the widest arithmetic taken (two more gates for the constant wires).
pub open spec fn fits(e: Expr, ws: Seq<nat>, g: nat) -> bool {
    &&& max_width(e, ws) <= MAX_LOWER_WIDTH
    &&& g + cost(e, ws) + budget(max_width(e, ws)) + 2 <= MAX_GATES
}

/// A wider operand never has a smaller budget.
pub proof fn lemma_budget_mono(a: nat, b: nat)
    requires
        a <= b,
    ensures
        budget(a) <= budget(b),
{
    assert(17 * a * a <= 17 * b * b) by (nonlinear_arith)
        requires
            a <= b,
    ;
}

/// The widths held in a vector, as naturals.
pub open spec fn nat_widths(ws: Seq<usize>) -> Seq<nat> {
    Seq::new(ws.len(), |i: int| ws[i] as nat)
}

/// Checks an expression's widths; `None` where it is malformed.
pub fn check_width(e: &Expr, ws: &Vec<usize>) -> (r: Option<usize>)
    ensures
        r matches Some(n) ==> width(*e, nat_widths(ws@)) == Some(n as nat),
        r is None ==> width(*e, nat_widths(ws@)) is None,
    decreases e,
{
    match e {
        Expr::Var(i) => if *i < ws.len() {
            Some(ws[*i])
        } else {
            None
        },
        Expr::Lit(bits) => Some(bits.len()),
        Expr::Arith(_, x, y) | Expr::Bitwise(_, x, y) => match (check_width(x, ws), check_width(y, ws)) {
            (Some(a), Some(b)) => if a == b && a > 0 {
                Some(a)
            } else {
                None
            },
            _ => None,
        },
        Expr::Not(x) | Expr::Neg(x) => match check_width(x, ws) {
            Some(a) => if a > 0 {
                Some(a)
            } else {
                None
            },
            None => None,
        },
        Expr::Compare(_, x, y) => match (check_width(x, ws), check_width(y, ws)) {
            (Some(a), Some(b)) => if a == b && a > 0 {
                Some(1)
            } else {
                None
            },
            _ => None,
        },
        Expr::If(c, t, f) => match (check_width(c, ws), check_width(t, ws), check_width(f, ws)) {
            (Some(cw), Some(tw), Some(fw)) => if cw == 1 && tw == fw && tw > 0 {
                Some(tw)
            } else {
                None
            },
            _ => None,
        },
        Expr::Shl(x, _) | Expr::Shr(x, _) => check_width(x, ws),
        Expr::Let(x, body) => match check_width(x, ws) {
            Some(a) => {
                let mut inner = ws.clone();
                inner.push(a);
                proof {
                    assert(nat_widths(inner@) =~= nat_widths(ws@).push(a as nat));
                }
                check_width(body, &inner)
            },
            None => None,
        },
    }
}

/// The widest operand that lowering takes: it keeps every product and
/// quotient circuit within the executor's gate limit.
pub const MAX_LOWER_WIDTH: usize = 4096;

/// Gate budgets of the single operations, all within one bound.
proof fn lemma_costs_within(n: nat, c: nat)
    requires
        n > 0,
        c <= 4,
    ensures
        5 * n + 1 <= 17 * n * n + 20 * n + 10,
        6 * n + 5 <= 17 * n * n + 20 * n + 10,
        9 * n + 6 <= 17 * n * n + 20 * n + 10,
        n * c <= 17 * n * n + 20 * n + 10,
        9 * n * n + 1 <= 17 * n * n + 20 * n + 10,
        17 * n * n + 1 <= 17 * n * n + 20 * n + 10,
{
    assert(n * c <= 4 * n) by (nonlinear_arith)
        requires
            c <= 4,
    ;
    assert(9 * n * n <= 17 * n * n) by (nonlinear_arith);
}

impl CircuitBuilder {
    /// Every variable's wires exist.
    pub open spec fn valid_env(&self, env: Seq<Vec<u32>>) -> bool {
        forall|i: int| 0 <= i < env.len() ==> self.valid(#[trigger] env[i]@)
    }

    /// The variables' values.
    pub open spec fn read_env(&self, env: Seq<Vec<u32>>) -> Seq<Seq<bool>> {
        Seq::new(env.len(), |i: int| self.read(env[i]@))
    }

    pub proof fn lemma_extends_read_env(&self, old: &Self, env: Seq<Vec<u32>>)
        requires
            self.extends(old),
            old.wf(),
            old.valid_env(env),
        ensures
            self.valid_env(env),
            self.read_env(env) == old.read_env(env),
    {
        assert forall|i: int| 0 <= i < env.len() implies self.valid(#[trigger] env[i]@)
            && self.read(env[i]@) == old.read(env[i]@) by {
            self.lemma_extends_read(old, env[i]@);
        }
        assert(self.read_env(env) =~= old.read_env(env));
    }

    fn has_room(&self, n: usize) -> (ok: bool)
        requires
            self.wf(),
        ensures
            ok == (n <= MAX_LOWER_WIDTH && self.room(budget(n as nat))),
    {
        if n > MAX_LOWER_WIDTH {
            return false;
        }
        proof {
            assert(17 * n * n + 20 * n + 10 <= 17 * 4096 * 4096 + 20 * 4096 + 10) by (nonlinear_arith)
                requires
                    n <= 4096,
            ;
        }
        let cost = 17 * n * n + 20 * n + 10;
        cost <= MAX_GATES && self.gate_count() <= MAX_GATES - cost
    }

    fn lower_binary(&mut self, e: &Expr, xw: &Vec<u32>, yw: &Vec<u32>) -> (r: Vec<u32>)
        requires
            old(self).wf(),
            old(self).valid(xw@),
            old(self).valid(yw@),
            same_width(old(self).read(xw@), old(self).read(yw@)),
            old(self).room(17 * xw@.len() * xw@.len() + 20 * xw@.len() + 10),
            is_binary(*e),
        ensures
            final(self).wf(),
            final(self).extends(old(self)),
            final(self).valid(r@),
            final(self).read(r@) == binary_value(*e, old(self).read(xw@), old(self).read(yw@)),
            old(self).constants_ready() ==> final(self).gates().len() == old(self).gates().len()
                + binary_cost(*e, xw@.len() as nat),
    {
        let ghost a = self.read(xw@);
        let ghost b = self.read(yw@);
        proof {
            lemma_costs_within(xw@.len() as nat, 4);
        }
        match e {
            Expr::Arith(op, _, _) => {
                match op {
                    ArithOp::Add => {
                        let r = self.add(xw, yw);
                        proof {
                            lemma_bits_of_own_value(self.read(r@));
                        }
                        r
                    },
                    ArithOp::Sub => {
                        let r = self.sub(xw, yw);
                        proof {
                            lemma_bits_of_own_value(self.read(r@));
                        }
                        r
                    },
                    ArithOp::Mul => {
                        let r = self.mul(xw, yw);
                        proof {
                            lemma_bits_of_own_value(self.read(r@));
                        }
                        r
                    },
                    ArithOp::Div => {
                        let (q, _rem) = self.div_rem(xw, yw);
                        proof {
                            lemma_bits_of_own_value(self.read(q@));
                        }
                        q
                    },
                    ArithOp::Rem => {
                        let (_q, r) = self.div_rem(xw, yw);
                        proof {
                            lemma_bits_of_own_value(self.read(r@));
                            lemma_bits_of_own_value(a);
                        }
                        r
                    },
                }
            },
            Expr::Bitwise(op, _, _) => {
                proof {
                    assert(xw@.len() * op.cost() <= 17 * xw@.len() * xw@.len() + 20 * xw@.len() + 10) by {
                        lemma_costs_within(xw@.len() as nat, op.cost());
                    }
                }
                self.bitwise(*op, xw, yw)
            },
            Expr::Compare(op, _, _) => {
                let w = match op {
                    CmpOp::Eq => self.eq(xw, yw),
                    CmpOp::Ne => self.ne(xw, yw),
                    CmpOp::Lt => self.lt(xw, yw),
                    CmpOp::Le => self.le(xw, yw),
                    CmpOp::Gt => self.gt(xw, yw),
                    CmpOp::Ge => self.ge(xw, yw),
                    CmpOp::SignedLt => self.lt_signed(xw, yw),
                };
                let r = vec![w];
                proof {
                    assert(self.read(r@) =~= seq![self.wires()[w as int]]);
                }
                r
            },
            _ => {
                proof {
                    assert(false);
                }
                Vec::new()
            },
        }
    }

    /// The wires of `xw` shifted by `k` within the width (left or right),
    /// the vacated places taking the false wire. Only the false wire may be
    /// appended.
    fn shift_wires(&mut self, xw: &Vec<u32>, k: usize, left: bool) -> (r: Vec<u32>)
        requires
            old(self).wf(),
            old(self).gates().len() > 0,
            old(self).valid(xw@),
            old(self).room(1),
        ensures
            final(self).wf(),
            final(self).extends(old(self)),
            final(self).valid(r@),
            left ==> final(self).read(r@) == shl_bits(old(self).read(xw@), k as nat),
            !left ==> final(self).read(r@) == shr_bits(old(self).read(xw@), k as nat),
            old(self).constants_ready() ==> final(self).gates() == old(self).gates(),
    {
        let ghost s0 = *self;
        let z = self.constant_false();
        proof {
            self.lemma_extends_read(&s0, xw@);
        }
        let n = xw.len();
        let mut r: Vec<u32> = Vec::new();
        let mut i: usize = 0;
        while i < n
            invariant
                n == xw@.len(),
                0 <= i <= n,
                self.wf(),
                self.valid(xw@),
                z < self.gates().len(),
                !self.wires()[z as int],
                r@.len() == i,
                self.valid(r@),
                left ==> self.read(r@) == shl_bits(self.read(xw@), k as nat).subrange(0, i as int),
                !left ==> self.read(r@) == shr_bits(self.read(xw@), k as nat).subrange(0, i as int),
            decreases n - i,
        {
            let w = if left {
                if i < k {
                    z
                } else {
                    xw[i - k]
                }
            } else {
                if k < n && i < n - k {
                    xw[i + k]
                } else {
                    z
                }
            };
            r.push(w);
            proof {
                if left {
                    assert(self.read(r@) =~= shl_bits(self.read(xw@), k as nat).subrange(0, i + 1));
                } else {
                    assert(self.read(r@) =~= shr_bits(self.read(xw@), k as nat).subrange(0, i + 1));
                }
            }
            i += 1;
        }
        proof {
            assert(shl_bits(self.read(xw@), k as nat).subrange(0, n as int) =~= shl_bits(self.read(xw@), k as nat));
            assert(shr_bits(self.read(xw@), k as nat).subrange(0, n as int) =~= shr_bits(self.read(xw@), k as nat));
        }
        r
    }

    /// What lowering `e` needs: a well-formed builder with a wire, the
    /// variables' wires, and a well-formed expression.
    pub open spec fn lower_pre(&self, e: Expr, env: Seq<Vec<u32>>) -> bool {
        &&& self.wf()
        &&& self.gates().len() > 0
        &&& self.valid_env(env)
        &&& eval(e, self.read_env(env)) is Some
    }

    /// What lowering `e` from `old` gave: the wires of its value, or
    /// `TooLarge`, which cannot come when the expression fits; with the
    /// constant wires in place it appended exactly `cost(e)` gates.
    pub open spec fn lowered(
        &self,
        old: &Self,
        e: Expr,
        env: Seq<Vec<u32>>,
        r: Result<Vec<u32>, LowerError>,
    ) -> bool {
        &&& self.wf()
        &&& self.extends(old)
        &&& (r matches Ok(w) ==> self.valid(w@) && eval(e, old.read_env(env)) == Some(self.read(w@)))
        &&& (r matches Err(err) ==> err == LowerError::TooLarge)
        &&& (r is Ok && old.constants_ready() ==> self.gates().len() == old.gates().len() + cost(
            e,
            widths(old.read_env(env)),
        ))
        &&& (old.constants_ready() && fits_after(e, widths(old.read_env(env)), old.gates().len())
            ==> r is Ok)
    }

    /// Lowers an arithmetic, bitwise or comparison node.
    fn lower_binary_node(&mut self, e: &Expr, env: &Vec<Vec<u32>>) -> (r: Result<Vec<u32>, LowerError>)
        requires
            old(self).lower_pre(*e, env@),
            is_binary(*e),
        ensures
            final(self).lowered(old(self), *e, env@, r),
        decreases e, 0nat,
    {
        let ghost s0 = *self;
        let ghost vals = self.read_env(env@);
        let ghost ws = widths(vals);
        let ghost g = self.gates().len();
        let ghost ok = self.constants_ready() && fits_after(*e, ws, g);
        proof {
            assert(self.gates().subrange(0, self.gates().len() as int) =~= self.gates());
        }
        match e {
            Expr::Arith(_, x, y) | Expr::Bitwise(_, x, y) | Expr::Compare(_, x, y) => {
        proof {
            if ok {
                lemma_budget_mono(max_width(**x, ws), max_width(*e, ws));
                lemma_budget_mono(max_width(**y, ws), max_width(*e, ws));
                lemma_budget_mono(width_or_zero(**x, ws), max_width(*e, ws));
            }
        }
        let xw = match self.lower(x, env) {
            Ok(w) => w,
            Err(err) => return Err(err),
        };
        let ghost s1 = *self;
        proof {
            s1.lemma_extends_read_env(&s0, env@);
        }
        let yw = match self.lower(y, env) {
            Ok(w) => w,
            Err(err) => {
                proof {
                    self.lemma_extends_trans(&s1, &s0);
                }
                return Err(err);
            },
        };
        let ghost s2 = *self;
        let ghost a = s1.read(xw@);
        let ghost b = s2.read(yw@);
        proof {
            s2.lemma_extends_read(&s1, xw@);
            s2.lemma_extends_trans(&s1, &s0);
            assert(same_width(a, b));
            lemma_eval_width(**x, vals);
            assert(budget(xw@.len() as nat) == 17 * xw@.len() * xw@.len() + 20 * xw@.len() + 10);
        }
        let n = xw.len();
        if !self.has_room(n) {
            return Err(LowerError::TooLarge);
        }
        proof {
            lemma_costs_within(n as nat, 4);
        }
        let r = self.lower_binary(e, &xw, &yw);
        proof {
            self.lemma_extends_trans(&s2, &s0);
        }
        Ok(r)
            },
            _ => {
                proof {
                    assert(false);
                }
                Err(LowerError::TooLarge)
            },
        }
    }

    /// Lowers a negation or unary minus.
    fn lower_unary_node(&mut self, e: &Expr, env: &Vec<Vec<u32>>) -> (r: Result<Vec<u32>, LowerError>)
        requires
            old(self).lower_pre(*e, env@),
            e is Not || e is Neg,
        ensures
            final(self).lowered(old(self), *e, env@, r),
        decreases e, 0nat,
    {
        let ghost s0 = *self;
        let ghost vals = self.read_env(env@);
        let ghost ws = widths(vals);
        let ghost g = self.gates().len();
        let ghost ok = self.constants_ready() && fits_after(*e, ws, g);
        proof {
            assert(self.gates().subrange(0, self.gates().len() as int) =~= self.gates());
        }
        match e {
            Expr::Not(x) | Expr::Neg(x) => {
        proof {
            if ok {
                lemma_budget_mono(max_width(**x, ws), max_width(*e, ws));
                lemma_budget_mono(width_or_zero(**x, ws), max_width(*e, ws));
            }
        }
        let xw = match self.lower(x, env) {
            Ok(w) => w,
            Err(err) => return Err(err),
        };
        let ghost s1 = *self;
        let n = xw.len();
        proof {
            lemma_eval_width(**x, vals);
        }
        if !self.has_room(n) {
            return Err(LowerError::TooLarge);
        }
        proof {
            lemma_costs_within(n as nat, 4);
        }
        let r = if let Expr::Not(_) = e {
            self.not_bits(&xw)
        } else {
            let r = self.neg(&xw);
            proof {
                lemma_bits_of_own_value(self.read(r@));
            }
            r
        };
        proof {
            self.lemma_extends_trans(&s1, &s0);
        }
        Ok(r)
            },
            _ => {
                proof {
                    assert(false);
                }
                Err(LowerError::TooLarge)
            },
        }
    }

    /// Lowers `if`: both branches, then a multiplexer.
    fn lower_if_node(&mut self, e: &Expr, env: &Vec<Vec<u32>>) -> (r: Result<Vec<u32>, LowerError>)
        requires
            old(self).lower_pre(*e, env@),
            e is If,
        ensures
            final(self).lowered(old(self), *e, env@, r),
        decreases e, 0nat,
    {
        let ghost s0 = *self;
        let ghost vals = self.read_env(env@);
        let ghost ws = widths(vals);
        let ghost g = self.gates().len();
        let ghost ok = self.constants_ready() && fits_after(*e, ws, g);
        proof {
            assert(self.gates().subrange(0, self.gates().len() as int) =~= self.gates());
        }
        match e {
            Expr::If(c, t, f) => {
        proof {
            if ok {
                lemma_budget_mono(max_width(**c, ws), max_width(*e, ws));
                lemma_budget_mono(max_width(**t, ws), max_width(*e, ws));
                lemma_budget_mono(max_width(**f, ws), max_width(*e, ws));
                lemma_budget_mono(width_or_zero(**t, ws), max_width(*e, ws));
            }
        }
        let cw = match self.lower(c, env) {
            Ok(w) => w,
            Err(err) => return Err(err),
        };
        let ghost s1 = *self;
        proof {
            s1.lemma_extends_read_env(&s0, env@);
        }
        let tw = match self.lower(t, env) {
            Ok(w) => w,
            Err(err) => {
                proof {
                    self.lemma_extends_trans(&s1, &s0);
                }
                return Err(err);
            },
        };
        let ghost s2 = *self;
        proof {
            s2.lemma_extends_read_env(&s1, env@);
            s2.lemma_extends_read(&s1, cw@);
            s2.lemma_extends_trans(&s1, &s0);
        }
        let fw = match self.lower(f, env) {
            Ok(w) => w,
            Err(err) => {
                proof {
                    self.lemma_extends_trans(&s2, &s0);
                }
                return Err(err);
            },
        };
        let ghost s3 = *self;
        proof {
            s3.lemma_extends_read(&s2, cw@);
            s3.lemma_extends_read(&s2, tw@);
            s3.lemma_extends_trans(&s2, &s0);
        }
        let n = tw.len();
        proof {
            lemma_eval_width(**t, vals);
        }
        if !self.has_room(n) {
            return Err(LowerError::TooLarge);
        }
        proof {
            lemma_costs_within(n as nat, 4);
            assert(self.read(cw@)[0] == self.wires()[cw@[0] as int]);
        }
        let r = self.mux(cw[0], &tw, &fw);
        proof {
            self.lemma_extends_trans(&s3, &s0);
        }
        Ok(r)
            },
            _ => {
                proof {
                    assert(false);
                }
                Err(LowerError::TooLarge)
            },
        }
    }

    /// Lowers a constant shift.
    fn lower_shift_node(&mut self, e: &Expr, env: &Vec<Vec<u32>>) -> (r: Result<Vec<u32>, LowerError>)
        requires
            old(self).lower_pre(*e, env@),
            e is Shl || e is Shr,
        ensures
            final(self).lowered(old(self), *e, env@, r),
        decreases e, 0nat,
    {
        let ghost s0 = *self;
        let ghost vals = self.read_env(env@);
        let ghost ws = widths(vals);
        let ghost g = self.gates().len();
        let ghost ok = self.constants_ready() && fits_after(*e, ws, g);
        proof {
            assert(self.gates().subrange(0, self.gates().len() as int) =~= self.gates());
        }
        match e {
            Expr::Shl(x, k) | Expr::Shr(x, k) => {
        proof {
            if ok {
                lemma_budget_mono(max_width(**x, ws), max_width(*e, ws));
                lemma_budget_mono(0, max_width(*e, ws));
            }
        }
        let xw = match self.lower(x, env) {
            Ok(w) => w,
            Err(err) => return Err(err),
        };
        let ghost s1 = *self;
        if !self.has_room(0) {
            return Err(LowerError::TooLarge);
        }
        let left = if let Expr::Shl(_, _) = e {
            true
        } else {
            false
        };
        let r = self.shift_wires(&xw, *k, left);
        proof {
            self.lemma_extends_trans(&s1, &s0);
        }
        Ok(r)
            },
            _ => {
                proof {
                    assert(false);
                }
                Err(LowerError::TooLarge)
            },
        }
    }

    /// Lowers `let`: the bound value becomes the next variable.
    fn lower_let_node(&mut self, e: &Expr, env: &Vec<Vec<u32>>) -> (r: Result<Vec<u32>, LowerError>)
        requires
            old(self).lower_pre(*e, env@),
            e is Let,
        ensures
            final(self).lowered(old(self), *e, env@, r),
        decreases e, 0nat,
    {
        let ghost s0 = *self;
        let ghost vals = self.read_env(env@);
        let ghost ws = widths(vals);
        let ghost g = self.gates().len();
        let ghost ok = self.constants_ready() && fits_after(*e, ws, g);
        proof {
            assert(self.gates().subrange(0, self.gates().len() as int) =~= self.gates());
        }
        match e {
            Expr::Let(x, body) => {
        proof {
            if ok {
                lemma_budget_mono(max_width(**x, ws), max_width(*e, ws));
                lemma_budget_mono(max_width(**body, ws.push(width_or_zero(**x, ws))), max_width(*e, ws));
            }
        }
        let xw = match self.lower(x, env) {
            Ok(w) => w,
            Err(err) => return Err(err),
        };
        let ghost s1 = *self;
        proof {
            s1.lemma_extends_read_env(&s0, env@);
        }
        let mut inner: Vec<Vec<u32>> = Vec::new();
        let mut i: usize = 0;
        while i < env.len()
            invariant
                0 <= i <= env@.len(),
                inner@.len() == i,
                forall|j: int| 0 <= j < i ==> (#[trigger] inner@[j])@ == env@[j]@,
            decreases env@.len() - i,
        {
            inner.push(env[i].clone());
            i += 1;
        }
        inner.push(xw);
        proof {
            assert(s1.valid_env(inner@));
            assert(s1.read_env(inner@) =~= s1.read_env(env@).push(s1.read(xw@)));
            lemma_eval_width(**x, vals);
            assert(widths(vals.push(s1.read(xw@))) =~= widths(vals).push(s1.read(xw@).len()));
        }
        let r = self.lower(body, &inner);
        proof {
            self.lemma_extends_trans(&s1, &s0);
        }
        r
            },
            _ => {
                proof {
                    assert(false);
                }
                Err(LowerError::TooLarge)
            },
        }
    }

    fn lower(&mut self, e: &Expr, env: &Vec<Vec<u32>>) -> (r: Result<Vec<u32>, LowerError>)
        requires
            old(self).lower_pre(*e, env@),
        ensures
            final(self).lowered(old(self), *e, env@, r),
        decreases e, 1nat,
    {
        let ghost s0 = *self;
        let ghost vals = self.read_env(env@);
        let ghost ws = widths(vals);
        let ghost g = self.gates().len();
        let ghost ok = self.constants_ready() && fits_after(*e, ws, g);
        proof {
            assert(self.gates().subrange(0, self.gates().len() as int) =~= self.gates());
        }
        match e {
            Expr::Var(i) => {
        let w = env[*i].clone();
        proof {
            assert(self.valid(env@[*i as int]@));
        }
        Ok(w)
            },
            Expr::Lit(bits) => {
        if !self.has_room(0) {
            return Err(LowerError::TooLarge);
        }
        Ok(self.constant_bits(bits))
            },
            Expr::Arith(..) | Expr::Bitwise(..) | Expr::Compare(..) => self.lower_binary_node(e, env),
            Expr::Not(_) | Expr::Neg(_) => self.lower_unary_node(e, env),
            Expr::If(..) => self.lower_if_node(e, env),
            Expr::Shl(..) | Expr::Shr(..) => self.lower_shift_node(e, env),
            Expr::Let(..) => self.lower_let_node(e, env),
        }
    }

    /// Lowers an expression whose variables are bound to `env`'s wires. A
    /// malformed expression is refused before any gate is appended; otherwise
    /// the result's wires carry the expression's value, unless the circuit
    /// would grow too large.
    pub fn compile_expr(&mut self, e: &Expr, env: &Vec<Vec<u32>>) -> (r: Result<Vec<u32>, LowerError>)
        requires
            old(self).wf(),
            old(self).gates().len() > 0,
            old(self).valid_env(env@),
        ensures
            final(self).wf(),
            final(self).extends(old(self)),
            r matches Ok(w) ==> final(self).valid(w@) && eval(*e, old(self).read_env(env@)) == Some(
                final(self).read(w@),
            ),
            r matches Err(LowerError::Malformed) <==> eval(*e, old(self).read_env(env@)) is None,
            r matches Err(err) ==> err == LowerError::Malformed || err == LowerError::TooLarge,
            eval(*e, old(self).read_env(env@)) is None ==> final(self).gates() == old(self).gates(),
            r is Ok ==> final(self).constants_ready() && old(self).gates().len() + cost(
                *e,
                widths(old(self).read_env(env@)),
            ) <= final(self).gates().len() <= old(self).gates().len() + cost(
                *e,
                widths(old(self).read_env(env@)),
            ) + 2,
            r is Ok && old(self).constants_ready() ==> final(self).gates().len() == old(self).gates().len()
                + cost(*e, widths(old(self).read_env(env@))),
            eval(*e, old(self).read_env(env@)) is Some && fits(
                *e,
                widths(old(self).read_env(env@)),
                old(self).gates().len(),
            ) ==> r is Ok,
    {
        let mut ws: Vec<usize> = Vec::new();
        let mut i: usize = 0;
        while i < env.len()
            invariant
                0 <= i <= env@.len(),
                ws@.len() == i,
                forall|j: int| 0 <= j < i ==> ws@[j] == env@[j]@.len(),
            decreases env@.len() - i,
        {
            ws.push(env[i].len());
            i += 1;
        }
        proof {
            assert(nat_widths(ws@) =~= widths(self.read_env(env@)));
            lemma_eval_width(*e, self.read_env(env@));
            assert(self.gates().subrange(0, self.gates().len() as int) =~= self.gates());
        }
        match check_width(e, &ws) {
            None => Err(LowerError::Malformed),
            Some(_) => {
                proof {
                    lemma_budget_mono(0, max_width(*e, widths(self.read_env(env@))));
                }
                if !self.has_room(0) {
                    return Err(LowerError::TooLarge);
                }
                let ghost s0 = *self;
                self.constant_true();
                let ghost s1 = *self;
                proof {
                    s1.lemma_extends_read_env(&s0, env@);
                }
                let r = self.lower(e, env);
                proof {
                    self.lemma_extends_trans(&s1, &s0);
                }
                r
            },
        }
    }
}

/// Why a compiled function did not run.
#[derive(Debug)]
pub enum RunError {
    Lower(LowerError),
    Execution(ExecutionError),
}

/// The parameters' values.
pub open spec fn param_values(params: Seq<Vec<bool>>) -> Seq<Seq<bool>> {
    Seq::new(params.len(), |i: int| params[i]@)
}

/// All the parameters' bits together.
pub open spec fn total_bits(ps: Seq<Seq<bool>>) -> nat
    decreases ps.len(),
{
    if ps.len() == 0 {
        0
    } else {
        total_bits(ps.drop_last()) + ps.last().len()
    }
}

/// The contributor's input bits: every parameter but the second, in order.
pub open spec fn contributor_bits(ps: Seq<Seq<bool>>) -> Seq<bool>
    decreases ps.len(),
{
    if ps.len() == 0 {
        Seq::empty()
    } else {
        contributor_bits(ps.drop_last()) + if ps.len() == 2 {
            Seq::<bool>::empty()
        } else {
            ps.last()
        }
    }
}

/// The evaluator's input bits: the second parameter.
pub open spec fn evaluator_bits(ps: Seq<Seq<bool>>) -> Seq<bool> {
    if ps.len() > 1 {
        ps[1]
    } else {
        Seq::empty()
    }
}

/// A prefix of the parameters has no more bits than all of them.
pub proof fn lemma_total_bits_prefix(ps: Seq<Seq<bool>>, k: int)
    requires
        0 <= k <= ps.len(),
    ensures
        total_bits(ps.subrange(0, k)) <= total_bits(ps),
    decreases ps.len(),
{
    if k < ps.len() {
        assert(ps.drop_last().subrange(0, k) =~= ps.subrange(0, k));
        lemma_total_bits_prefix(ps.drop_last(), k);
    } else {
        assert(ps.subrange(0, k) =~= ps);
    }
}

/// Registers a function's parameters in order: the first is the
/// contributor's, the second the evaluator's, and any further ones the
/// contributor's. Returns each parameter's wires.
fn register_params(b: &mut CircuitBuilder, params: &Vec<Vec<bool>>) -> (r: Result<Vec<Vec<u32>>, LowerError>)
    requires
        old(b).wf(),
        old(b).taking_inputs(),
        old(b).gates().len() == 0,
        old(b).contributor() == Seq::<bool>::empty(),
        old(b).evaluator() == Seq::<bool>::empty(),
        params@.len() > 0,
        params@[0]@.len() > 0,
    ensures
        final(b).wf(),
        r matches Ok(env) ==> {
            &&& final(b).gates().len() > 0
            &&& final(b).gates().len() == total_bits(param_values(params@))
            &&& final(b).contributor() == contributor_bits(param_values(params@))
            &&& final(b).evaluator() == evaluator_bits(param_values(params@))
            &&& final(b).valid_env(env@)
            &&& final(b).read_env(env@) == param_values(params@)
        },
        r matches Err(err) ==> err == LowerError::TooLarge,
        total_bits(param_values(params@)) <= MAX_GATES ==> r is Ok,
{
    let ghost vals = param_values(params@);
    let mut env: Vec<Vec<u32>> = Vec::new();
    let mut i: usize = 0;
    proof {
        assert(vals.subrange(0, 0) =~= Seq::<Seq<bool>>::empty());
        assert(b.read_env(env@) =~= Seq::new(0, |j: int| params@[j]@));
    }
    while i < params.len()
        invariant
            0 <= i <= params@.len(),
            vals == param_values(params@),
            params@.len() > 0,
            params@[0]@.len() > 0,
            b.wf(),
            b.taking_inputs(),
            i > 0 ==> b.gates().len() > 0,
            b.gates().len() == total_bits(vals.subrange(0, i as int)),
            b.contributor() == contributor_bits(vals.subrange(0, i as int)),
            b.evaluator() == evaluator_bits(vals.subrange(0, i as int)),
            env@.len() == i,
            b.valid_env(env@),
            b.read_env(env@) == Seq::new(i as nat, |j: int| params@[j]@),
        decreases params@.len() - i,
    {
        proof {
            lemma_total_bits_prefix(vals, i + 1);
            assert(vals.subrange(0, i + 1).drop_last() =~= vals.subrange(0, i as int));
        }
        if b.gate_count() > MAX_GATES || params[i].len() > MAX_GATES - b.gate_count() {
            return Err(LowerError::TooLarge);
        }
        let ghost prev = *b;
        let w = if i == 1 {
            b.add_evaluator_input(&params[i])
        } else {
            b.add_contributor_input(&params[i])
        };
        proof {
            assert forall|j: int| 0 <= j < env@.len() implies b.valid(#[trigger] env@[j]@) && b.read(env@[j]@) == prev.read(env@[j]@) by {
                b.lemma_keeps_read(&prev, env@[j]@);
            }
            let pre = vals.subrange(0, i + 1);
            if i == 1 {
                assert(evaluator_bits(pre) == params@[1]@);
                assert(contributor_bits(pre) =~= contributor_bits(vals.subrange(0, i as int)));
            } else {
                assert(contributor_bits(pre) == contributor_bits(vals.subrange(0, i as int)) + params@[i as int]@);
                if i == 0 {
                    assert(evaluator_bits(pre) =~= Seq::<bool>::empty());
                } else {
                    assert(evaluator_bits(pre) == evaluator_bits(vals.subrange(0, i as int)));
                }
            }
        }
        let ghost env0 = env@;
        env.push(w);
        proof {
            assert forall|j: int| 0 <= j < i + 1 implies #[trigger] b.read(env@[j]@) == params@[j]@ by {
                if j < i {
                    assert(env@[j] == env0[j]);
                    assert(prev.read_env(env0)[j] == params@[j]@);
                } else {
                    assert(env@[j] == w);
                }
            }
            assert(b.read_env(env@) =~= Seq::new((i + 1) as nat, |j: int| params@[j]@));
        }
        i += 1;
    }
    proof {
        assert(vals.subrange(0, i as int) =~= vals);
        assert(b.read_env(env@) =~= vals);
    }
    Ok(env)
}

/// The width check of a function body against its parameters, which decides
/// whether the body is malformed.
fn body_width(e: &Expr, params: &Vec<Vec<bool>>) -> (r: Option<usize>)
    ensures
        r is None <==> eval(*e, param_values(params@)) is None,
        r matches Some(n) ==> (eval(*e, param_values(params@)) matches Some(v) && v.len() == n),
{
    let mut ws: Vec<usize> = Vec::new();
    let mut i: usize = 0;
    while i < params.len()
        invariant
            0 <= i <= params@.len(),
            ws@.len() == i,
            forall|j: int| 0 <= j < i ==> ws@[j] == params@[j]@.len(),
        decreases params@.len() - i,
    {
        ws.push(params[i].len());
        i += 1;
    }
    proof {
        let vals = param_values(params@);
        assert(nat_widths(ws@) =~= widths(vals));
        lemma_eval_width(*e, vals);
    }
    check_width(e, &ws)
}

/// Compile mode for a function of `params` whose body is `e`: the circuit
/// and its input bits (the contributor's, then the evaluator's), without
/// running it. On those bits the circuit outputs the value of `e`.
pub fn compile_function(e: &Expr, params: &Vec<Vec<bool>>) -> (r: Result<(Circuit, Vec<bool>), LowerError>)
    requires
        params@.len() > 0,
        params@[0]@.len() > 0,
    ensures
        r matches Err(LowerError::Malformed) <==> eval(*e, param_values(params@)) is None,
        r matches Err(LowerError::Empty) <==> (eval(*e, param_values(params@)) matches Some(v) && v.len()
            == 0),
        r matches Ok(res) ==> {
            let vals = param_values(params@);
            &&& res.0.wf()
            &&& res.1@ == contributor_bits(vals) + evaluator_bits(vals)
            &&& eval(*e, vals) == Some(res.0.output(contributor_bits(vals), evaluator_bits(vals)))
        },
        eval(*e, param_values(params@)) is Some && fits(
            *e,
            widths(param_values(params@)),
            total_bits(param_values(params@)),
        ) ==> !(r matches Err(LowerError::TooLarge)),
{
    let ghost vals = param_values(params@);
    match body_width(e, params) {
        None => {
            return Err(LowerError::Malformed);
        },
        Some(n) => {
            if n == 0 {
                return Err(LowerError::Empty);
            }
        },
    }
    let mut b = CircuitBuilder::new();
    let env = match register_params(&mut b, params) {
        Ok(env) => env,
        Err(err) => return Err(err),
    };
    let w = match b.compile_expr(e, &env) {
        Ok(w) => w,
        Err(err) => return Err(err),
    };
    Ok(b.compile(&w))
}

/// Execute mode for a function of `params` whose body is `e`: lowers it,
/// runs the circuit through the executor and returns the output bits, which
/// are the value of `e`. A value without bits is returned without running
/// anything.
pub fn execute_function(e: &Expr, params: &Vec<Vec<bool>>) -> (r: Result<Vec<bool>, RunError>)
    requires
        params@.len() > 0,
        params@[0]@.len() > 0,
    ensures
        r matches Err(RunError::Lower(LowerError::Malformed)) <==> eval(*e, param_values(params@)) is None,
        (eval(*e, param_values(params@)) matches Some(v) && v.len() == 0) ==> (r matches Ok(o)
            && o@.len() == 0),
        eval(*e, param_values(params@)) is Some && fits(
            *e,
            widths(param_values(params@)),
            total_bits(param_values(params@)),
        ) ==> !(r matches Err(RunError::Lower(_))),
        r matches Ok(v) ==> eval(*e, param_values(params@)) == Some(v@),
{
    match body_width(e, params) {
        None => {
            return Err(RunError::Lower(LowerError::Malformed));
        },
        Some(n) => {
            if n == 0 {
                return Ok(Vec::new());
            }
        },
    }
    let mut b = CircuitBuilder::new();
    let env = match register_params(&mut b, params) {
        Ok(env) => env,
        Err(err) => return Err(RunError::Lower(err)),
    };
    let w = match b.compile_expr(e, &env) {
        Ok(w) => w,
        Err(err) => return Err(RunError::Lower(err)),
    };
    proof {
        assert(b.read(w@).len() == w@.len());
    }
    match b.execute(&w) {
        Ok(v) => Ok(v),
        Err(err) => Err(RunError::Execution(err)),
    }
}

} // verus!
