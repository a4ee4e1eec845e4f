use compute::builder::BitwiseOp;
use compute::circuit::Gate;
use compute::ops::{bitwise_circuit, not_circuit};
use compute::signed::{GarbledInt, GarbledInt128, GarbledInt16, GarbledInt32, GarbledInt64, GarbledInt8};
use compute::uint::{GarbledBit, GarbledBoolean, GarbledUint, GarbledUint128, GarbledUint16, GarbledUint32, GarbledUint64, GarbledUint8};

#[test]
fn unsigned_round_trips() {
    for v in [0_u8, 1, 127, 128, 255] {
        assert_eq!(GarbledUint8::from_u8(v).to_u8(), v);
    }
    assert_eq!(GarbledUint16::from_u16(u16::MAX).to_u16(), u16::MAX);
    assert_eq!(GarbledUint32::from_u32(0xdead_beef).to_u32(), 0xdead_beef);
    assert_eq!(GarbledUint64::from_u64(u64::MAX - 1).to_u64(), u64::MAX - 1);
    assert_eq!(GarbledUint128::from_u128(u128::MAX).to_u128(), u128::MAX);
}

#[test]
fn signed_round_trips() {
    for v in [i8::MIN, -86, -1, 0, 1, i8::MAX] {
        assert_eq!(GarbledInt8::from_i8(v).to_i8(), v);
    }
    assert_eq!(GarbledInt16::from_i16(i16::MIN).to_i16(), i16::MIN);
    assert_eq!(GarbledInt32::from_i32(-1431655766).to_i32(), -1431655766);
    assert_eq!(GarbledInt64::from_i64(i64::MIN).to_i64(), i64::MIN);
    assert_eq!(GarbledInt128::from_i128(i128::MIN).to_i128(), i128::MIN);
    assert_eq!(GarbledInt128::from_i128(i128::MAX).to_i128(), i128::MAX);
}

#[test]
fn bits_are_least_significant_first() {
    assert_eq!(GarbledUint::<4>::from_u8(0b0110).bits, vec![false, true, true, false]);
    assert_eq!(GarbledInt::<4>::from_i8(-2).bits, vec![false, true, true, true]);
    assert_eq!(GarbledUint::<4>::new(vec![true, false, false, true]).to_u8(), 9);
}

#[test]
fn narrow_values_keep_the_low_bits() {
    assert_eq!(GarbledUint::<4>::from_u8(0xab).to_u8(), 0xb);
    assert_eq!(GarbledInt::<4>::from_i8(-1).to_i8(), -1);
    assert_eq!(GarbledInt::<4>::from_i8(8).to_i8(), -8);
}

#[test]
fn signed_and_unsigned_share_the_bits() {
    let s = GarbledInt8::from_i8(-1);
    assert_eq!(s.to_uint().to_u8(), 255);
    assert_eq!(GarbledInt8::from_uint(&GarbledUint8::from_u8(128)).to_i8(), -128);
}

#[test]
fn zero_one_and_booleans() {
    assert!(!GarbledBit::zero().to_bool());
    assert!(GarbledBit::one().to_bool());
    assert!(GarbledBoolean::from_bool(true).to_bool());
    assert_eq!(GarbledBit::one().to_u8(), 1);
}

#[test]
fn mux_selects_by_the_condition() {
    let t = GarbledUint8::from_u8(200);
    let f = GarbledUint8::from_u8(17);
    let picked = GarbledUint8::mux(&GarbledBoolean::one(), &t, &f).unwrap();
    assert_eq!(picked.to_u8(), 200);
    let picked = GarbledUint8::mux(&GarbledBoolean::zero(), &t, &f).unwrap();
    assert_eq!(picked.to_u8(), 17);
    let a = GarbledInt8::from_i8(-5);
    let b = GarbledInt8::from_i8(6);
    assert_eq!(GarbledInt8::mux(&GarbledBoolean::one(), &a, &b).unwrap().to_i8(), -5);
    assert_eq!(GarbledInt8::mux(&GarbledBoolean::zero(), &a, &b).unwrap().to_i8(), 6);
}

#[test]
fn results_keep_their_width() {
    let a = GarbledUint::<5>::from_u8(21);
    let b = GarbledUint::<5>::from_u8(10);
    assert_eq!(a.bitor(&b).unwrap().bits.len(), 5);
    assert_eq!(a.clone().nor(b.clone()).unwrap().bits.len(), 5);
    assert_eq!(a.not().unwrap().bits.len(), 5);
    assert_eq!(a.shl(2).bits.len(), 5);
    assert_eq!(a.shr(7).bits.len(), 5);
}

#[test]
fn shifts_past_the_width_clear_every_bit() {
    assert_eq!(GarbledUint8::from_u8(0xff).shl(8).to_u8(), 0);
    assert_eq!(GarbledUint8::from_u8(0xff).shr(100).to_u8(), 0);
    assert_eq!(GarbledInt8::from_i8(-128).shr(1).to_i8(), 64);
    assert_eq!(GarbledInt8::from_i8(-1).shl(7).to_i8(), -128);
}

#[test]
fn nand_of_alternating_bytes() {
    let a = GarbledUint8::from_u8(170);
    let b = GarbledUint8::from_u8(85);
    assert_eq!(a.nand(b).unwrap().to_u8(), 255);
}

#[test]
fn signed_or_matches_native() {
    let a = GarbledInt8::from_i8(-86);
    let b = GarbledInt8::from_i8(-43);
    assert_eq!(a.bitor(&b).unwrap().to_i8(), -86_i8 | -43_i8);
}

#[test]
fn bitwise_on_sixteen_bits_matches_native() {
    let (x, y) = (0xa5c3_u16, 0x0ff0_u16);
    let a = GarbledUint16::from_u16(x);
    let b = GarbledUint16::from_u16(y);
    assert_eq!(a.bitand(&b).unwrap().to_u16(), x & y);
    assert_eq!(a.bitor(&b).unwrap().to_u16(), x | y);
    assert_eq!(a.bitxor(&b).unwrap().to_u16(), x ^ y);
    assert_eq!(a.not().unwrap().to_u16(), !x);
    assert_eq!(a.clone().xnor(b.clone()).unwrap().to_u16(), !(x ^ y));
    assert_eq!(a.nor(b).unwrap().to_u16(), !(x | y));
}

#[test]
fn narrower_natives_extend_into_wider_values() {
    assert_eq!(GarbledUint::<16>::from_u8(200).to_u16(), 200);
    assert_eq!(GarbledInt::<16>::from_i8(-3).to_i16(), -3);
    let wide = GarbledInt::<200>::from_i8(-1);
    assert!(wide.bits.iter().all(|b| *b));
    let wide = GarbledInt::<200>::from_i128(i128::MAX);
    assert!(!wide.bits[199] && !wide.bits[127] && wide.bits[126]);
    let wide = GarbledUint::<130>::from_u8(1);
    assert!(wide.bits[0] && !wide.bits[129]);
}

#[test]
fn bitwise_circuits_depend_on_the_width_only() {
    let a = GarbledUint8::from_u8(3).bits;
    let b = GarbledUint8::from_u8(200).bits;
    let c = GarbledUint8::from_u8(77).bits;
    let nor1 = bitwise_circuit(BitwiseOp::Nor, &a, &b);
    let nor2 = bitwise_circuit(BitwiseOp::Nor, &c, &a);
    assert_eq!(nor1.gates, nor2.gates);
    assert_eq!(nor1.outputs, nor2.outputs);
    assert_eq!(nor1.gates.len(), 6 * 8);
    assert_eq!(nor1.gates[16..20].to_vec(), vec![Gate::Xor(0, 8), Gate::And(0, 8), Gate::Xor(16, 17), Gate::Not(18)]);
    assert_eq!(nor1.outputs[0], 19);
    let nand = bitwise_circuit(BitwiseOp::Nand, &a, &b);
    assert_eq!(nand.gates[16..18].to_vec(), vec![Gate::And(0, 8), Gate::Not(16)]);
    let not = not_circuit(&a);
    assert_eq!(not.gates.len(), 3 * 8);
    assert_eq!(not.gates[16], Gate::Not(0));
    assert_eq!(not.outputs, (16..24).collect::<Vec<u32>>());
}
