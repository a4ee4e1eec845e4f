use compute::builder::{BitwiseOp, CircuitBuilder};
use compute::circuit::execute_circuit;
use compute::uint::{GarbledBoolean, GarbledUint};

// The first parameter goes to the contributor, the second to the evaluator,
// and any further ones to the contributor.
fn params_u8(b: &mut CircuitBuilder, values: &[u8]) -> Vec<Vec<u32>> {
    let mut wires = Vec::new();
    for (i, v) in values.iter().enumerate() {
        let bits = GarbledUint::<8>::from_u8(*v).bits;
        if i == 1 {
            wires.push(b.add_evaluator_input(&bits));
        } else {
            wires.push(b.add_contributor_input(&bits));
        }
    }
    wires
}

fn params_u16(b: &mut CircuitBuilder, values: &[u16]) -> Vec<Vec<u32>> {
    let mut wires = Vec::new();
    for (i, v) in values.iter().enumerate() {
        let bits = GarbledUint::<16>::from_u16(*v).bits;
        if i == 1 {
            wires.push(b.add_evaluator_input(&bits));
        } else {
            wires.push(b.add_contributor_input(&bits));
        }
    }
    wires
}

fn out_u8(b: &CircuitBuilder, w: &Vec<u32>) -> u8 {
    GarbledUint::<8>::new(b.execute(w).unwrap()).to_u8()
}

fn out_u16(b: &CircuitBuilder, w: &Vec<u32>) -> u16 {
    GarbledUint::<16>::new(b.execute(w).unwrap()).to_u16()
}

fn out_bool(b: &CircuitBuilder, w: u32) -> bool {
    GarbledBoolean::new(b.execute(&vec![w]).unwrap()).to_bool()
}

// if c { a * b } else { a + b }, both branches built, then a multiplexer.
fn select_product_or_sum(b: &mut CircuitBuilder, c: u32, x: &Vec<u32>, y: &Vec<u32>) -> Vec<u32> {
    let t = b.mul(x, y);
    let f = b.add(x, y);
    b.mux(c, &t, &f)
}

fn multi_arithmetic(a: u8, b: u8, c: u8, d: u8) -> u8 {
    let mut cb = CircuitBuilder::new();
    let p = params_u8(&mut cb, &[a, b, c, d]);
    let res = cb.mul(&p[0], &p[1]);
    let res = cb.add(&res, &p[2]);
    let res = cb.sub(&res, &p[3]);
    out_u8(&cb, &res)
}

#[test]
fn test_macro_arithmetic_compiler() {
    let (a, b, c, d) = (2_u8, 5_u8, 3_u8, 4_u8);
    let mut cb = CircuitBuilder::new();
    let p = params_u8(&mut cb, &[a, b, c, d]);
    let res = cb.mul(&p[0], &p[1]);
    let res = cb.add(&res, &p[2]);
    let res = cb.sub(&res, &p[3]);
    let (circuit, inputs) = cb.compile(&res);
    assert_eq!(inputs.len(), 32);
    let contributor = inputs[..24].to_vec();
    let evaluator = inputs[24..].to_vec();
    let result = execute_circuit(&circuit, &contributor, &evaluator).unwrap();
    let result: u8 = GarbledUint::<8>::new(result).to_u8();
    assert_eq!(result, a * b + c - d);
}

#[test]
fn test_macro_arithmetic() {
    let (a, b, c, d) = (2_u8, 5_u8, 3_u8, 4_u8);
    assert_eq!(multi_arithmetic(a, b, c, d), a * b + c - d);
}

#[test]
fn test_macro_arithmetic_u128() {
    let (a, b, c, d) = (2_u128, 5_u128, 3_u128, 4_u128);
    let mut cb = CircuitBuilder::new();
    let p = params_u8(&mut cb, &[a as u8, b as u8, c as u8, d as u8]);
    let res = cb.add(&p[0], &p[1]);
    let res = cb.add(&res, &p[2]);
    let res = cb.sub(&res, &p[3]);
    assert_eq!(out_u8(&cb, &res) as u128, a + b + c - d);
}

#[test]
fn test_macro_mixed_arithmetic() {
    let (a, b, c, d) = (2_u8, 5_u8, 3_u8, 4_u8);
    let mut cb = CircuitBuilder::new();
    let p = params_u8(&mut cb, &[a, b, c, d]);
    let res = cb.mul(&p[0], &p[1]);
    let res = cb.add(&res, &p[2]);
    let res = cb.sub(&res, &p[3]);
    let res = cb.mul(&res, &p[0]);
    assert_eq!(out_u8(&cb, &res), (a * b + c - d) * a);
}

fn binary_u8(a: u8, b: u8, op: fn(&mut CircuitBuilder, &Vec<u32>, &Vec<u32>) -> Vec<u32>) -> u8 {
    let mut cb = CircuitBuilder::new();
    let p = params_u8(&mut cb, &[a, b]);
    let r = op(&mut cb, &p[0], &p[1]);
    out_u8(&cb, &r)
}

#[test]
fn test_macro_addition() {
    let (a, b) = (2_u8, 5_u8);
    assert_eq!(binary_u8(a, b, |cb, x, y| cb.add(x, y)), a + b);
}

#[test]
fn test_macro_subtraction() {
    let (a, b) = (20_u8, 5_u8);
    assert_eq!(binary_u8(a, b, |cb, x, y| cb.sub(x, y)), a - b);
}

#[test]
fn test_macro_multiplication() {
    let (a, b) = (20_u8, 5_u8);
    assert_eq!(binary_u8(a, b, |cb, x, y| cb.mul(x, y)), a * b);
}

#[test]
fn test_macro_mux() {
    let (a, b) = (5_u8, 10_u8);
    let result = binary_u8(a, b, |cb, x, y| {
        let c = cb.eq(x, y);
        cb.mux(c, x, y)
    });
    assert_eq!(result, b);
}

// if a == b { let c = a * b; c + a } else { a + b }
fn if_else_u16(a: u16, b: u16) -> u16 {
    let mut cb = CircuitBuilder::new();
    let p = params_u16(&mut cb, &[a, b]);
    let cond = cb.eq(&p[0], &p[1]);
    let c = cb.mul(&p[0], &p[1]);
    let t = cb.add(&c, &p[0]);
    let f = cb.add(&p[0], &p[1]);
    let r = cb.mux(cond, &t, &f);
    out_u16(&cb, &r)
}

fn if_else_u8(a: u8, b: u8) -> u8 {
    binary_u8(a, b, |cb, x, y| {
        let cond = cb.eq(x, y);
        let c = cb.mul(x, y);
        let t = cb.add(&c, x);
        let f = cb.add(x, y);
        cb.mux(cond, &t, &f)
    })
}

#[test]
fn test_macro_if_else() {
    let (a, b) = (10_u16, 5_u16);
    let result: u16 = if_else_u16(a, b);
    assert_eq!(result, a + b);
}

#[test]
fn if_else_takes_the_equal_branch() {
    assert_eq!(if_else_u8(4, 4), 20);
}

#[test]
fn if_else_on_u16_gives_fifteen() {
    assert_eq!(if_else_u16(10, 5), 15);
}

#[test]
fn test_macro_if_else2() {
    let run = |a: u8, b: u8| {
        binary_u8(a, b, |cb, x, y| {
            let t = cb.mul(x, y);
            let f = cb.add(x, y);
            let c = cb.eq(x, y);
            cb.mux(c, &t, &f)
        })
    };
    let (a, b) = (10_u8, 5_u8);
    assert_eq!(run(a, b), a + b);
    let a = 5_u8;
    assert_eq!(run(a, b), a * b);
}

#[test]
fn test_macro_if_else3() {
    let run = |a: u8, b: u8| {
        binary_u8(a, b, |cb, x, y| {
            let c = cb.eq(x, y);
            select_product_or_sum(cb, c, x, y)
        })
    };
    let (a, b) = (4_u8, 4_u8);
    assert_eq!(run(a, b), a * b);
    let a = 5_u8;
    assert_eq!(run(a, b), a + b);
}

#[test]
fn test_macro_if_else4() {
    let (a, b) = (5_u8, 7_u8);
    let result = binary_u8(a, b, |cb, x, y| {
        let cond = cb.eq(x, y);
        let c = cb.mul(x, y);
        let t = cb.add(&c, x);
        let s = cb.add(x, y);
        let f = cb.mul(&s, &s);
        cb.mux(cond, &t, &f)
    });
    assert_eq!(result, (a + b) * (a + b));
}

#[test]
fn test_macro_nested_arithmetic() {
    let (a, b, c, d) = (2_u8, 5_u8, 3_u8, 4_u8);
    assert_eq!(multi_arithmetic(a, b, c, d), a * b + c - d);
}

#[test]
fn test_macro_bitwise_and() {
    let (a, b) = (2_u8, 3_u8);
    assert_eq!(binary_u8(a, b, |cb, x, y| cb.bitwise(BitwiseOp::And, x, y)), a & b);
}

#[test]
fn test_macro_bitwise_or() {
    let (a, b) = (2_u8, 3_u8);
    assert_eq!(binary_u8(a, b, |cb, x, y| cb.bitwise(BitwiseOp::Or, x, y)), a | b);
}

#[test]
fn test_macro_bitwise_xor() {
    let (a, b) = (2_u8, 3_u8);
    assert_eq!(binary_u8(a, b, |cb, x, y| cb.bitwise(BitwiseOp::Xor, x, y)), a ^ b);
}

#[test]
fn test_macro_bitwise_not() {
    let a = 2_u8;
    let mut cb = CircuitBuilder::new();
    let p = params_u8(&mut cb, &[a]);
    let r = cb.not_bits(&p[0]);
    assert_eq!(out_u8(&cb, &r), !a);
}

#[test]
fn test_macro_bitwise_nand() {
    let (a, b) = (2_u8, 3_u8);
    assert_eq!(binary_u8(a, b, |cb, x, y| cb.bitwise(BitwiseOp::Nand, x, y)), !(a & b));
}

#[test]
fn test_macro_bitwise_nor() {
    let (a, b) = (2_u8, 3_u8);
    assert_eq!(binary_u8(a, b, |cb, x, y| cb.bitwise(BitwiseOp::Nor, x, y)), !(a | b));
}

#[test]
fn test_macro_bitwise_xnor() {
    let (a, b) = (2_u8, 3_u8);
    assert_eq!(binary_u8(a, b, |cb, x, y| cb.bitwise(BitwiseOp::Xnor, x, y)), !(a ^ b));
}

#[test]
fn test_macro_equal() {
    let (a, b) = (2_u8, 3_u8);
    let result = binary_u8(a, b, |cb, x, y| {
        let c = cb.eq(x, y);
        select_product_or_sum(cb, c, x, y)
    });
    assert_eq!(result, a + b);
}

#[test]
fn test_macro_not_equal() {
    let (a, b) = (2_u8, 3_u8);
    let result = binary_u8(a, b, |cb, x, y| {
        let c = cb.ne(x, y);
        select_product_or_sum(cb, c, x, y)
    });
    assert_eq!(result, a * b);
}

fn compare_then_select(a: u8, b: u8, cmp: fn(&mut CircuitBuilder, &Vec<u32>, &Vec<u32>) -> u32) -> u8 {
    let mut cb = CircuitBuilder::new();
    let p = params_u8(&mut cb, &[a, b]);
    let c = cmp(&mut cb, &p[0], &p[1]);
    let r = select_product_or_sum(&mut cb, c, &p[0], &p[1]);
    out_u8(&cb, &r)
}

#[test]
fn test_macro_greater_than() {
    let gt = |cb: &mut CircuitBuilder, x: &Vec<u32>, y: &Vec<u32>| cb.gt(x, y);
    let b = 3_u8;
    let a = 2_u8;
    assert_eq!(compare_then_select(a, b, gt), a + b);
    let a = 3_u8;
    assert_eq!(compare_then_select(a, b, gt), a + b);
    let a = 4_u8;
    assert_eq!(compare_then_select(a, b, gt), a * b);
}

#[test]
fn test_macro_greater_than_or_equal() {
    let ge = |cb: &mut CircuitBuilder, x: &Vec<u32>, y: &Vec<u32>| cb.ge(x, y);
    let b = 3_u8;
    let a = 2_u8;
    assert_eq!(compare_then_select(a, b, ge), a + b);
    let a = 3_u8;
    assert_eq!(compare_then_select(a, b, ge), a * b);
    let a = 4_u8;
    assert_eq!(compare_then_select(a, b, ge), a * b);
}

#[test]
fn test_macro_less_than() {
    let lt = |cb: &mut CircuitBuilder, x: &Vec<u32>, y: &Vec<u32>| cb.lt(x, y);
    let b = 3_u8;
    let a = 2_u8;
    assert_eq!(compare_then_select(a, b, lt), a * b);
    let a = 3_u8;
    assert_eq!(compare_then_select(a, b, lt), a + b);
    let a = 4_u8;
    assert_eq!(compare_then_select(a, b, lt), a + b);
}

#[test]
fn test_macro_less_than_or_equal() {
    let le = |cb: &mut CircuitBuilder, x: &Vec<u32>, y: &Vec<u32>| cb.le(x, y);
    let b = 3_u8;
    let a = 2_u8;
    assert_eq!(compare_then_select(a, b, le), a * b);
    let a = 3_u8;
    assert_eq!(compare_then_select(a, b, le), a * b);
    let a = 4_u8;
    assert_eq!(compare_then_select(a, b, le), a + b);
}

#[test]
fn test_macro_bool_return() {
    let (a, b) = (2_u8, 3_u8);
    let mut cb = CircuitBuilder::new();
    let p = params_u8(&mut cb, &[a, b]);
    let w = cb.eq(&p[0], &p[1]);
    let result = out_bool(&cb, w);
    assert!(!result);
}

fn div_u8(a: u8, b: u8) -> (u8, u8) {
    let mut cb = CircuitBuilder::new();
    let p = params_u8(&mut cb, &[a, b]);
    let (q, r) = cb.div_rem(&p[0], &p[1]);
    (out_u8(&cb, &q), out_u8(&cb, &r))
}

#[test]
fn test_macro_div() {
    let (a, b) = (20_u8, 5_u8);
    assert_eq!(div_u8(a, b).0, a / b);
}

#[test]
fn test_macro_div_with_remainder() {
    let (a, b) = (20_u8, 3_u8);
    assert_eq!(div_u8(a, b).0, a / b);
}

#[test]
fn test_macro_div_with_remainder2() {
    let (a, b) = (20_u8, 7_u8);
    assert_eq!(div_u8(a, b).0, a / b);
}

#[test]
fn test_macro_rem() {
    let (a, b) = (20_u8, 5_u8);
    assert_eq!(div_u8(a, b).1, a % b);
}

#[test]
fn test_macro_rem_with_remainder() {
    let (a, b) = (20_u8, 3_u8);
    assert_eq!(div_u8(a, b).1, a % b);
}

#[test]
fn division_and_remainder_of_twenty_by_three() {
    assert_eq!(div_u8(20, 3), (6, 2));
}

#[test]
fn division_by_zero_gives_all_ones_and_the_dividend() {
    assert_eq!(div_u8(20, 0), (255, 20));
}

fn plus_constant(a: u8, k: u8) -> u8 {
    let mut cb = CircuitBuilder::new();
    let p = params_u8(&mut cb, &[a]);
    let kw = cb.constant_bits(&GarbledUint::<8>::from_u8(k).bits);
    let r = cb.add(&p[0], &kw);
    out_u8(&cb, &r)
}

#[test]
fn test_macro_constants() {
    assert_eq!(plus_constant(10_u8, 20), 30_u8);
}

#[test]
fn test_macro_embedded_constants() {
    let big_b = 20;
    assert_eq!(plus_constant(10_u8, big_b), 30_u8);
}

#[test]
fn test_order_of_operations() {
    let (a, b, c) = (10_u16, 20_u16, 30_u16);
    let mut cb = CircuitBuilder::new();
    let p = params_u16(&mut cb, &[a, b, c]);
    let m = cb.mul(&p[1], &p[2]);
    let r = cb.add(&p[0], &m);
    assert_eq!(out_u16(&cb, &r), 610_u16);
}

#[test]
fn test_order_of_operations2() {
    let (a, b, c) = (10_u16, 20_u16, 30_u16);
    let mut cb = CircuitBuilder::new();
    let p = params_u16(&mut cb, &[a, b, c]);
    let s = cb.add(&p[0], &p[1]);
    let r = cb.mul(&s, &p[2]);
    assert_eq!(out_u16(&cb, &r), 900);
}

#[test]
fn test_add_assign() {
    assert_eq!(binary_u8(10, 20, |cb, x, y| cb.add(x, y)), 30_u8);
}

#[test]
fn test_sub_assign() {
    assert_eq!(binary_u8(10, 20, |cb, x, y| cb.sub(x, y)), 246_u8);
}

#[test]
fn test_mul_assign() {
    assert_eq!(binary_u8(10, 20, |cb, x, y| cb.mul(x, y)), 200_u8);
}

#[test]
fn test_div_assign() {
    assert_eq!(div_u8(10, 20).0, 0_u8);
}

#[test]
fn test_rem_assign() {
    assert_eq!(div_u8(10, 20).1, 10_u8);
}

#[test]
fn test_bitand_assign() {
    assert_eq!(binary_u8(10, 20, |cb, x, y| cb.bitwise(BitwiseOp::And, x, y)), 0_u8);
}

#[test]
fn test_bitor_assign() {
    assert_eq!(binary_u8(10, 20, |cb, x, y| cb.bitwise(BitwiseOp::Or, x, y)), 30_u8);
}

#[test]
fn test_bitxor_assign() {
    assert_eq!(binary_u8(10, 20, |cb, x, y| cb.bitwise(BitwiseOp::Xor, x, y)), 30_u8);
}

#[test]
fn qualifies_for_discount_at_one_hundred_over_eighty() {
    let mut cb = CircuitBuilder::new();
    let p = params_u16(&mut cb, &[100, 80]);
    let w = cb.ge(&p[0], &p[1]);
    assert!(out_bool(&cb, w));
}

#[test]
fn multi_arithmetic_gives_nine() {
    assert_eq!(multi_arithmetic(2, 5, 3, 4), 9);
}

#[test]
fn test_macro_division() {
    let (a, b) = (20_u8, 5_u8);
    assert_eq!(div_u8(a, b).0, a / b);
}

#[test]
fn test_macro_remainder() {
    let (a, b) = (20_u8, 5_u8);
    assert_eq!(div_u8(a, b).1, a % b);
}
