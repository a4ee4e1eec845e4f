use compute::builder::{BitwiseOp, CircuitBuilder};
use compute::frontend::{compile_function, execute_function, ArithOp, CmpOp, Expr, LowerError, RunError};
use compute::signed::GarbledInt;
use compute::uint::GarbledUint;

fn var(i: usize) -> Box<Expr> {
    Box::new(Expr::Var(i))
}

fn arith(op: ArithOp, x: Box<Expr>, y: Box<Expr>) -> Box<Expr> {
    Box::new(Expr::Arith(op, x, y))
}

fn cmp(op: CmpOp, x: Box<Expr>, y: Box<Expr>) -> Box<Expr> {
    Box::new(Expr::Compare(op, x, y))
}

// Registers the parameters as a compiled function does and lowers `e`.
fn run_u8(e: &Expr, values: &[u8]) -> (u8, usize) {
    let mut b = CircuitBuilder::new();
    let mut env = Vec::new();
    for (i, v) in values.iter().enumerate() {
        let bits = GarbledUint::<8>::from_u8(*v).bits;
        if i == 1 {
            env.push(b.add_evaluator_input(&bits));
        } else {
            env.push(b.add_contributor_input(&bits));
        }
    }
    let w = b.compile_expr(e, &env).unwrap();
    let out = GarbledUint::<8>::new(b.execute(&w).unwrap()).to_u8();
    (out, b.gate_count())
}

fn run_u16(e: &Expr, values: &[u16]) -> u16 {
    let mut b = CircuitBuilder::new();
    let mut env = Vec::new();
    for (i, v) in values.iter().enumerate() {
        let bits = GarbledUint::<16>::from_u16(*v).bits;
        if i == 1 {
            env.push(b.add_evaluator_input(&bits));
        } else {
            env.push(b.add_contributor_input(&bits));
        }
    }
    let w = b.compile_expr(e, &env).unwrap();
    GarbledUint::<16>::new(b.execute(&w).unwrap()).to_u16()
}

// if a == b { a * b + a } else { a + b }
fn if_else_expr() -> Expr {
    Expr::If(
        cmp(CmpOp::Eq, var(0), var(1)),
        arith(ArithOp::Add, arith(ArithOp::Mul, var(0), var(1)), var(0)),
        arith(ArithOp::Add, var(0), var(1)),
    )
}

#[test]
fn if_else_expression_on_u16() {
    assert_eq!(run_u16(&if_else_expr(), &[10, 5]), 15);
}

#[test]
fn if_else_expression_on_equal_u8() {
    assert_eq!(run_u8(&if_else_expr(), &[4, 4]).0, 20);
}

#[test]
fn if_else_gate_count_does_not_depend_on_the_condition() {
    let (taken, gates_taken) = run_u8(&if_else_expr(), &[4, 4]);
    let (skipped, gates_skipped) = run_u8(&if_else_expr(), &[5, 4]);
    assert_eq!(taken, 20);
    assert_eq!(skipped, 9);
    assert_eq!(gates_taken, gates_skipped);
}

#[test]
fn mux_adds_three_gates_per_bit() {
    let mut b = CircuitBuilder::new();
    let x = b.add_contributor_input(&GarbledUint::<8>::from_u8(7).bits);
    let y = b.add_evaluator_input(&GarbledUint::<8>::from_u8(9).bits);
    let c = b.eq(&x, &y);
    let before = b.gate_count();
    let r = b.mux(c, &x, &y);
    assert_eq!(b.gate_count(), before + 24);
    assert_eq!(r.len(), 8);
    assert_eq!(GarbledUint::<8>::new(b.execute(&r).unwrap()).to_u8(), 9);
}

#[test]
fn order_of_operations_expression() {
    let e = arith(ArithOp::Add, var(0), arith(ArithOp::Mul, var(1), var(2)));
    assert_eq!(run_u16(&e, &[10, 20, 30]), 610);
    let e = arith(ArithOp::Mul, arith(ArithOp::Add, var(0), var(1)), var(2));
    assert_eq!(run_u16(&e, &[10, 20, 30]), 900);
}

#[test]
fn multi_arithmetic_expression() {
    let e = Expr::Let(
        arith(ArithOp::Mul, var(0), var(1)),
        Box::new(Expr::Let(
            arith(ArithOp::Add, var(4), var(2)),
            arith(ArithOp::Sub, var(5), var(3)),
        )),
    );
    assert_eq!(run_u8(&e, &[2, 5, 3, 4]).0, 9);
}

#[test]
fn compound_assignment_lowers_through_let() {
    // let c = a; c -= b
    let e = Expr::Let(var(0), arith(ArithOp::Sub, var(2), var(1)));
    assert_eq!(run_u8(&e, &[10, 20]).0, 246);
}

#[test]
fn constant_in_expression() {
    let twenty = Box::new(Expr::Lit(GarbledUint::<8>::from_u8(20).bits));
    let e = arith(ArithOp::Add, var(0), twenty);
    assert_eq!(run_u8(&e, &[10]).0, 30);
}

#[test]
fn division_and_remainder_expressions() {
    assert_eq!(run_u8(&arith(ArithOp::Div, var(0), var(1)), &[20, 3]).0, 6);
    assert_eq!(run_u8(&arith(ArithOp::Rem, var(0), var(1)), &[20, 3]).0, 2);
    assert_eq!(run_u8(&arith(ArithOp::Div, var(0), var(1)), &[20, 0]).0, 255);
    assert_eq!(run_u8(&arith(ArithOp::Rem, var(0), var(1)), &[20, 0]).0, 20);
}

#[test]
fn bitwise_and_unary_expressions() {
    let nand = Box::new(Expr::Bitwise(BitwiseOp::Nand, var(0), var(1)));
    assert_eq!(run_u8(&nand, &[170, 85]).0, 255);
    let not = Box::new(Expr::Not(var(0)));
    assert_eq!(run_u8(&not, &[170]).0, 85);
    let neg = Box::new(Expr::Neg(var(0)));
    assert_eq!(run_u8(&neg, &[1]).0, 255);
    let shl = Box::new(Expr::Shl(var(0), 3));
    assert_eq!(run_u8(&shl, &[0b0011_0001]).0, 0b1000_1000);
    let shr = Box::new(Expr::Shr(var(0), 9));
    assert_eq!(run_u8(&shr, &[0xff]).0, 0);
}

#[test]
fn comparison_expressions_give_one_bit() {
    let mut b = CircuitBuilder::new();
    let minus_three = GarbledInt::<8>::from_i8(-3).bits;
    let two = GarbledInt::<8>::from_i8(2).bits;
    let x = b.add_contributor_input(&minus_three);
    let y = b.add_evaluator_input(&two);
    let env = vec![x, y];
    let signed = b.compile_expr(&cmp(CmpOp::SignedLt, var(0), var(1)), &env).unwrap();
    let unsigned = b.compile_expr(&cmp(CmpOp::Lt, var(0), var(1)), &env).unwrap();
    let ne = b.compile_expr(&cmp(CmpOp::Ne, var(0), var(1)), &env).unwrap();
    assert_eq!(signed.len(), 1);
    let out = b.execute(&vec![signed[0], unsigned[0], ne[0]]).unwrap();
    assert_eq!(out, vec![true, false, true]);
}

#[test]
fn malformed_expressions_are_refused_before_any_gate() {
    let mut b = CircuitBuilder::new();
    let x = b.add_contributor_input(&GarbledUint::<8>::from_u8(1).bits);
    let y = b.add_evaluator_input(&GarbledUint::<4>::from_u8(1).bits);
    let env = vec![x, y];
    let before = b.gate_count();
    let mismatch = arith(ArithOp::Add, var(0), var(1));
    assert_eq!(b.compile_expr(&mismatch, &env), Err(LowerError::Malformed));
    let unbound = arith(ArithOp::Add, var(0), var(7));
    assert_eq!(b.compile_expr(&unbound, &env), Err(LowerError::Malformed));
    let wide_condition = Expr::If(var(0), var(0), var(0));
    assert_eq!(b.compile_expr(&wide_condition, &env), Err(LowerError::Malformed));
    assert_eq!(b.gate_count(), before);
}

fn u16_bits(v: u16) -> Vec<bool> {
    GarbledUint::<16>::from_u16(v).bits
}

#[test]
fn qualifies_for_discount_in_execute_mode() {
    let e = cmp(CmpOp::Ge, var(0), var(1));
    let out = execute_function(&e, &vec![u16_bits(100), u16_bits(80)]).unwrap();
    assert_eq!(out, vec![true]);
    let out = execute_function(&e, &vec![u16_bits(79), u16_bits(80)]).unwrap();
    assert_eq!(out, vec![false]);
}

#[test]
fn execute_mode_reinterprets_the_output() {
    let e = arith(ArithOp::Add, var(0), arith(ArithOp::Mul, var(1), var(2)));
    let params = vec![u16_bits(10), u16_bits(20), u16_bits(30)];
    let out = execute_function(&e, &params).unwrap();
    assert_eq!(GarbledUint::<16>::new(out).to_u16(), 610);
}

#[test]
fn execute_mode_refuses_malformed_bodies() {
    let e = arith(ArithOp::Add, var(0), var(1));
    let params = vec![u16_bits(1), GarbledUint::<8>::from_u8(1).bits];
    assert!(matches!(
        execute_function(&e, &params),
        Err(RunError::Lower(LowerError::Malformed))
    ));
}

#[test]
fn compile_mode_for_a_whole_function() {
    let e = arith(ArithOp::Sub, arith(ArithOp::Add, arith(ArithOp::Mul, var(0), var(1)), var(2)), var(3));
    let params: Vec<Vec<bool>> = [2_u8, 5, 3, 4].iter().map(|v| GarbledUint::<8>::from_u8(*v).bits).collect();
    let (circuit, inputs) = compile_function(&e, &params).unwrap();
    assert_eq!(inputs.len(), 32);
    let contributor = inputs[..24].to_vec();
    let evaluator = inputs[24..].to_vec();
    let out = compute::circuit::execute_circuit(&circuit, &contributor, &evaluator).unwrap();
    assert_eq!(GarbledUint::<8>::new(out).to_u8(), 9);
}

#[test]
fn value_without_bits_is_returned_without_a_circuit() {
    let empty = Box::new(Expr::Lit(Vec::new()));
    let params = vec![u16_bits(1)];
    assert_eq!(execute_function(&empty, &params).unwrap(), Vec::<bool>::new());
    assert!(matches!(compile_function(&empty, &params), Err(LowerError::Empty)));
    let mismatch = arith(ArithOp::Add, var(0), var(3));
    assert!(matches!(compile_function(&mismatch, &params), Err(LowerError::Malformed)));
}
