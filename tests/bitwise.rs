use compute::signed::{GarbledInt, GarbledInt8};
use compute::uint::{
    GarbledUint, GarbledUint128, GarbledUint16, GarbledUint32, GarbledUint64, GarbledUint8,
};

#[test]
fn test_uint_xor() {
    let a = GarbledUint::<2>::new(vec![true, false]);
    let b = GarbledUint::<2>::new(vec![false, true]);

    let result = a.bitxor(&b).unwrap();
    assert_eq!(result.to_u8(), 3);

    let a = GarbledUint::<4>::new(vec![true, true, false, false]);
    let b = GarbledUint::<4>::new(vec![false, false, true, true]);

    let result = a.bitxor(&b).unwrap();
    assert_eq!(result.to_u8(), 15);
}

#[test]
fn test_from_u8_xor() {
    let a = GarbledUint8::from_u8(170);
    let b = GarbledUint8::from_u8(85);

    let result = a.bitxor(&b).unwrap();
    assert_eq!(result.to_u8(), 255);
}

#[test]
fn test_from_u16_xor() {
    let a = GarbledUint16::from_u16(43690);
    let b = GarbledUint16::from_u16(21845);

    let result = a.bitxor(&b).unwrap();
    assert_eq!(result.to_u16(), 65535);
}

#[test]
fn test_from_u32_xor() {
    let a = GarbledUint32::from_u32(2863311530);
    let b = GarbledUint32::from_u32(1431655765);

    let result = a.bitxor(&b).unwrap();
    assert_eq!(result.to_u32(), 4294967295);
}

#[test]
fn test_from_u64_xor() {
    let a = GarbledUint64::from_u64(12297829382473034410);
    let b = GarbledUint64::from_u64(6148914691236517205);

    let result = a.bitxor(&b).unwrap();
    assert_eq!(result.to_u64(), 18446744073709551615);
}

#[test]
fn test_from_u128_xor() {
    let a = GarbledUint128::from_u128(170);
    let b = GarbledUint128::from_u128(85);

    let result = a.bitxor(&b).unwrap();
    assert_eq!(result.to_u128(), 255);
}

#[test]
fn test_from_i8_xor() {
    let a = GarbledInt8::from_i8(-86);
    let b = GarbledInt8::from_i8(-43);

    let result = a.bitxor(&b).unwrap();
    assert_eq!(result.to_i8(), -86_i8 ^ -43_i8);
}

#[test]
fn test_from_i16_xor() {
    let a = GarbledInt::<16>::from_i16(-21846);
    let b = GarbledInt::<16>::from_i16(-10923);

    let result = a.bitxor(&b).unwrap();
    assert_eq!(result.to_i16(), -21846_i16 ^ -10923_i16);
}

#[test]
fn test_uint_and() {
    let a = GarbledUint::<2>::new(vec![true, false]);
    let b = GarbledUint::<2>::new(vec![false, true]);

    let result = a.bitand(&b).unwrap();
    assert_eq!(result.to_u8(), 0);

    let a = GarbledUint::<4>::new(vec![true, true, false, false]);
    let b = GarbledUint::<4>::new(vec![false, false, true, true]);

    let result = a.bitand(&b).unwrap();
    assert_eq!(result.to_u8(), 0);

    let a = GarbledUint::<4>::new(vec![true, false, false, true]);
    let b = GarbledUint::<4>::new(vec![false, false, false, false]);

    let result = a.bitand(&b).unwrap();
    assert_eq!(result.to_u8(), 0);
}

#[test]
fn test_from_u8_and() {
    let a = GarbledUint8::from_u8(170);
    let b = GarbledUint8::from_u8(85);

    let result = a.bitand(&b).unwrap();
    assert_eq!(result.to_u8(), 170 & 85);
}

#[test]
fn test_from_u16_and() {
    let a = GarbledUint16::from_u16(43690);
    let b = GarbledUint16::from_u16(21845);

    let result = a.bitand(&b).unwrap();
    assert_eq!(result.to_u16(), 43690 & 21845);
}

#[test]
fn test_from_u32_and() {
    let a = GarbledUint32::from_u32(2863311530);
    let b = GarbledUint32::from_u32(1431655765);

    let result = a.bitand(&b).unwrap();
    assert_eq!(result.to_u32(), 2863311530 & 1431655765);
}

#[test]
fn test_from_u64_and() {
    let a = GarbledUint64::from_u64(12297829382473034410);
    let b = GarbledUint64::from_u64(6148914691236517205);

    let result = a.bitand(&b).unwrap();
    assert_eq!(result.to_u64(), 12297829382473034410 & 6148914691236517205);

}

#[test]
fn test_from_u128_and() {
    let a = GarbledUint128::from_u128(170);
    let b = GarbledUint128::from_u128(85);

    let result = a.bitand(&b).unwrap();
    assert_eq!(result.to_u128(), 170 & 85);
}

#[test]
fn test_from_u8_or() {
    let a = GarbledUint8::from_u8(170);
    let b = GarbledUint8::from_u8(85);

    let result = a.bitor(&b).unwrap();
    assert_eq!(result.to_u8(), 170 | 85);
}

#[test]
fn test_from_u16_or() {
    let a = GarbledUint16::from_u16(43690);
    let b = GarbledUint16::from_u16(21845);

    let result = a.bitor(&b).unwrap();
    assert_eq!(result.to_u16(), 43690 | 21845);
}

#[test]
fn test_from_u32_or() {
    let a = GarbledUint32::from_u32(2863311530);
    let b = GarbledUint32::from_u32(1431655765);

    let result = a.bitor(&b).unwrap();
    assert_eq!(result.to_u32(), 2863311530 | 1431655765);
}

#[test]
fn test_from_u64_or() {
    let a = GarbledUint64::from_u64(12297829382473034410);
    let b = GarbledUint64::from_u64(6148914691236517205);

    let result = a.bitor(&b).unwrap();
    assert_eq!(result.to_u64(), 12297829382473034410 | 6148914691236517205);

}

#[test]
fn test_from_u128_or() {
    let a = GarbledUint128::from_u128(170);
    let b = GarbledUint128::from_u128(85);

    let result = a.bitor(&b).unwrap();
    assert_eq!(result.to_u128(), 170 | 85);
}

#[test]
fn test_from_i8_or() {
    let a = GarbledInt8::from_i8(-86);
    let b = GarbledInt8::from_i8(-43);

    let result = a.bitor(&b).unwrap();
    assert_eq!(result.to_i8(), -86_i8 | -43_i8);
}

#[test]
fn test_from_i16_or() {
    let a = GarbledInt::<16>::from_i16(-21846);
    let b = GarbledInt::<16>::from_i16(-10923);

    let result = a.bitor(&b).unwrap();
    assert_eq!(result.to_i16(), -21846_i16 | -10923_i16);
}

#[test]
fn test_from_i32_or() {
    let a = GarbledInt::<32>::from_i32(-1431655766);
    let b = GarbledInt::<32>::from_i32(-715827883);

    let result = a.bitor(&b).unwrap();
    assert_eq!(result.to_i32(), -1431655766_i32 | -715827883_i32);

}

#[test]
fn test_from_i64_or() {
    let a = GarbledInt::<64>::from_i64(-6148914691236517206);
    let b = GarbledInt::<64>::from_i64(-3074457345618258603);

    let result = a.bitor(&b).unwrap();
    assert_eq!(
        result.to_i64(),
        -6148914691236517206_i64 | -3074457345618258603_i64
    );

}

#[test]
fn test_from_i128_or() {
    let a = GarbledInt::<128>::from_i128(-6148914691236517206);
    let b = GarbledInt::<128>::from_i128(-3074457345618258603);

    let result = a.bitor(&b).unwrap();
    assert_eq!(
        result.to_i128(),
        -6148914691236517206_i128 | -3074457345618258603_i128
    );

}

#[test]
fn test_int_and() {
    let a = GarbledInt8::from_i8(-86);
    let b = GarbledInt8::from_i8(-43);

    let result = a.bitand(&b).unwrap();
    assert_eq!(result.to_i8(), -86_i8 & -43_i8);
}

#[test]
fn test_from_i16_and() {
    let a = GarbledInt::<16>::from_i16(-21846);
    let b = GarbledInt::<16>::from_i16(-10923);

    let result = a.bitand(&b).unwrap();
    assert_eq!(result.to_i16(), -21846_i16 & -10923_i16);
}

#[test]
fn test_from_i32_and() {
    let a = GarbledInt::<32>::from_i32(-1431655766);
    let b = GarbledInt::<32>::from_i32(-715827883);

    let result = a.bitand(&b).unwrap();
    assert_eq!(result.to_i32(), -1431655766_i32 & -715827883_i32);

}

#[test]
fn test_from_i64_and() {
    let a = GarbledInt::<64>::from_i64(-6148914691236517206);
    let b = GarbledInt::<64>::from_i64(-3074457345618258603);

    let result = a.bitand(&b).unwrap();
    assert_eq!(
        result.to_i64(),
        -6148914691236517206_i64 & -3074457345618258603_i64
    );

}

#[test]
fn test_from_i128_and() {
    let a = GarbledInt::<128>::from_i128(-6148914691236517206);
    let b = GarbledInt::<128>::from_i128(-3074457345618258603);

    let result = a.bitand(&b).unwrap();
    assert_eq!(
        result.to_i128(),
        -6148914691236517206_i128 & -3074457345618258603_i128
    );

}

#[test]
fn test_from_u8_not() {
    let a = GarbledUint8::from_u8(170);

    let result = a.not().unwrap();
    assert_eq!(result.to_u8(), !170);
}

#[test]
fn test_from_u16_not() {
    let a = GarbledUint16::from_u16(43690);

    let result = a.not().unwrap();
    assert_eq!(result.to_u16(), !43690);
}

#[test]
fn test_from_u32_not() {
    let a = GarbledUint32::from_u32(2863311530);

    let result = a.not().unwrap();
    assert_eq!(result.to_u32(), !2863311530);
}

#[test]
fn test_from_u64_not() {
    let a = GarbledUint64::from_u64(12297829382473034410);

    let result = a.not().unwrap();
    assert_eq!(result.to_u64(), !12297829382473034410);

}

#[test]
fn test_from_u128_not() {
    let a = GarbledUint128::from_u128(170);

    let result = a.not().unwrap();
    assert_eq!(result.to_u128(), !170);
}

#[test]
fn test_from_i8_not() {
    let a = GarbledInt8::from_i8(-86);

    let result = a.not().unwrap();
    assert_eq!(result.to_i8(), !-86_i8);
}

#[test]
fn test_from_i16_not() {
    let a = GarbledInt::<16>::from_i16(-21846);

    let result = a.not().unwrap();
    assert_eq!(result.to_i16(), !-21846_i16);
}

#[test]
fn test_from_i32_not() {
    let a = GarbledInt::<32>::from_i32(-1431655766);

    let result = a.not().unwrap();
    assert_eq!(result.to_i32(), !-1431655766_i32);
}

#[test]
fn test_from_i64_not() {
    let a = GarbledInt::<64>::from_i64(-6148914691236517206);

    let result = a.not().unwrap();
    assert_eq!(result.to_i64(), !-6148914691236517206_i64);

}

#[test]
fn test_from_i128_not() {
    let a = GarbledInt::<128>::from_i128(-6148914691236517206);

    let result = a.not().unwrap();
    assert_eq!(result.to_i128(), !-6148914691236517206_i128);

}

#[test]
fn test_left_shift_uint() {
    let a = GarbledUint::<4>::new(vec![false, false, false, true]);

    let result = a.shl(1);
    assert_eq!(result.to_u8(), 0b0000_u8);

    let a = GarbledUint::<4>::new(vec![false, false, false, true]);

    let result = a.shl(2);
    assert_eq!(result.to_u8(), 0b0000_u8);

    let a = GarbledUint::<4>::new(vec![false, false, false, true]);

    let result = a.shl(3);
    assert_eq!(result.to_u8(), 0b0000);

    let a = GarbledUint8::from_u8(1);

    let result = a.shl(1);
    assert_eq!(result.to_u8(), 0b0010);

    let a = GarbledUint::<4>::new(vec![true, false, false, false]);

    let result = a.shl(2);
    assert_eq!(result.to_u8(), 0b0100);

    let a = GarbledUint::<4>::new(vec![true, false, false, false]);

    let result = a.shl(3);
    assert_eq!(result.to_u8(), 0b1000);
}

#[test]
fn test_left_shift_int() {
    let a = GarbledInt8::from_i8(-128);

    let result = a.shl(1);
    assert_eq!(result.to_i8(), -128_i8 << 1);

    let a = GarbledInt8::from_i8(-128);

    let result = a.shl(2);
    assert_eq!(result.to_i8(), -128_i8 << 2);

    let a = GarbledInt8::from_i8(-128);

    let result = a.shl(3);
    assert_eq!(result.to_i8(), -128_i8 << 3);

    let a = GarbledInt8::from_i8(-1);

    let result = a.shl(1);
    assert_eq!(result.to_i8(), -1_i8 << 1);

    let a = GarbledInt8::from_i8(-1);

    let result = a.shl(2);
    assert_eq!(result.to_i8(), -1_i8 << 2);

    let a = GarbledInt8::from_i8(-1);

    let result = a.shl(3);
    assert_eq!(result.to_i8(), -1_i8 << 3);
}

#[test]
fn test_right_shift_uint() {
    let a = GarbledUint::<4>::new(vec![false, false, false, true]);

    let result = a.shr(1);
    assert_eq!(result.to_u8(), 0b0100);

    let a = GarbledUint::<4>::new(vec![false, false, false, true]);

    let result = a.shr(2);
    assert_eq!(result.to_u8(), 0b0010);

    let a = GarbledUint::<4>::new(vec![false, false, false, true]);

    let result = a.shr(3);
    assert_eq!(result.to_u8(), 0b0001);
}

#[test]
fn test_from_u8_nand() {
    let a = GarbledUint8::from_u8(170);
    let b = GarbledUint8::from_u8(85);

    let result = a.nand(b).unwrap();
    assert_eq!(result.to_u8(), !(170 & 85));
}

#[test]
fn test_from_u16_nand() {
    let a = GarbledUint16::from_u16(43690);
    let b = GarbledUint16::from_u16(21845);

    let result = a.nand(b).unwrap();
    assert_eq!(result.to_u16(), !(43690 & 21845));
}

#[test]
fn test_from_u32_nand() {
    let a = GarbledUint32::from_u32(2863311530);
    let b = GarbledUint32::from_u32(1431655765);

    let result = a.nand(b).unwrap();
    assert_eq!(result.to_u32(), !(2863311530 & 1431655765));

}

#[test]
fn test_from_u64_nand() {
    let a = GarbledUint64::from_u64(12297829382473034410);
    let b = GarbledUint64::from_u64(6148914691236517205);

    let result = a.nand(b).unwrap();
    assert_eq!(
        result.to_u64(),
        !(12297829382473034410 & 6148914691236517205)
    );

}

#[test]
fn test_from_u128_nand() {
    let a = GarbledUint128::from_u128(170);
    let b = GarbledUint128::from_u128(85);

    let result = a.nand(b).unwrap();
    assert_eq!(result.to_u128(), !(170 & 85));
}

#[test]
fn test_from_i8_nand() {
    let a = GarbledInt8::from_i8(-86_i8);
    let b = GarbledInt8::from_i8(-43_i8);

    let result = a.nand(b).unwrap();
    assert_eq!(result.to_i8(), !(-86_i8 & -43_i8));
}

#[test]
fn test_from_i16_nand() {
    let a = GarbledInt::<16>::from_i16(-21846_i16);
    let b = GarbledInt::<16>::from_i16(-10923_i16);

    let result = a.nand(b).unwrap();
    assert_eq!(result.to_i16(), !(-21846_i16 & -10923_i16));
}

#[test]
fn test_from_i32_nand() {
    let a = GarbledInt::<32>::from_i32(-1431655766_i32);
    let b = GarbledInt::<32>::from_i32(-715827883_i32);

    let result = a.nand(b).unwrap();
    assert_eq!(result.to_i32(), !(-1431655766_i32 & -715827883_i32));

}

#[test]
fn test_from_i64_nand() {
    let a = GarbledInt::<64>::from_i64(-6148914691236517206_i64);
    let b = GarbledInt::<64>::from_i64(-3074457345618258603_i64);

    let result = a.nand(b).unwrap();
    assert_eq!(
        result.to_i64(),
        !(-6148914691236517206_i64 & -3074457345618258603_i64)
    );

}

#[test]
fn test_from_i128_nand() {
    let a = GarbledInt::<128>::from_i128(-6148914691236517206_i128);
    let b = GarbledInt::<128>::from_i128(-3074457345618258603_i128);

    let result = a.nand(b).unwrap();
    assert_eq!(
        result.to_i128(),
        !(-6148914691236517206_i128 & -3074457345618258603_i128)
    );

}

#[test]
fn test_from_u8_nor() {
    let a = GarbledUint8::from_u8(170);
    let b = GarbledUint8::from_u8(85);

    let result = a.nor(b).unwrap();
    assert_eq!(result.to_u8(), !(170 | 85));
}

#[test]
fn test_from_u16_nor() {
    let a = GarbledUint16::from_u16(43690);
    let b = GarbledUint16::from_u16(21845);

    let result = a.nor(b).unwrap();
    assert_eq!(result.to_u16(), !(43690 | 21845));
}

#[test]
fn test_from_u32_nor() {
    let a = GarbledUint32::from_u32(2863311530);
    let b = GarbledUint32::from_u32(1431655765);

    let result = a.nor(b).unwrap();
    assert_eq!(result.to_u32(), !(2863311530 | 1431655765));

}

#[test]
fn test_from_u64_nor() {
    let a = GarbledUint64::from_u64(12297829382473034410);
    let b = GarbledUint64::from_u64(6148914691236517205);

    let result = a.nor(b).unwrap();
    assert_eq!(
        result.to_u64(),
        !(12297829382473034410 | 6148914691236517205)
    );

}

#[test]
fn test_from_u128_nor() {
    let a = GarbledUint128::from_u128(170);
    let b = GarbledUint128::from_u128(85);

    let result = a.nor(b).unwrap();
    assert_eq!(result.to_u128(), !(170 | 85));
}

#[test]
fn test_from_i8_nor() {
    let a = GarbledInt8::from_i8(-86_i8);
    let b = GarbledInt8::from_i8(-43_i8);

    let result = a.nor(b).unwrap();
    assert_eq!(result.to_i8(), !(-86_i8 | -43_i8));
}

#[test]
fn test_from_i16_nor() {
    let a = GarbledInt::<16>::from_i16(-21846_i16);
    let b = GarbledInt::<16>::from_i16(-10923_i16);

    let result = a.nor(b).unwrap();
    assert_eq!(result.to_i16(), !(-21846_i16 | -10923_i16));
}

#[test]
fn test_from_i32_nor() {
    let a = GarbledInt::<32>::from_i32(-1431655766_i32);
    let b = GarbledInt::<32>::from_i32(-715827883_i32);

    let result = a.nor(b).unwrap();
    assert_eq!(result.to_i32(), !(-1431655766_i32 | -715827883_i32));

}

#[test]
fn test_from_i64_nor() {
    let a = GarbledInt::<64>::from_i64(-6148914691236517206_i64);
    let b = GarbledInt::<64>::from_i64(-3074457345618258603_i64);

    let result = a.nor(b).unwrap();
    assert_eq!(
        result.to_i64(),
        !(-6148914691236517206_i64 | -3074457345618258603_i64)
    );

}

#[test]
fn test_from_i128_nor() {
    let a = GarbledInt::<128>::from_i128(-6148914691236517206_i128);
    let b = GarbledInt::<128>::from_i128(-3074457345618258603_i128);

    let result = a.nor(b).unwrap();
    assert_eq!(
        result.to_i128(),
        !(-6148914691236517206_i128 | -3074457345618258603_i128)
    );

}

#[test]
fn test_from_u8_xnor() {
    let a = GarbledUint8::from_u8(170);
    let b = GarbledUint8::from_u8(85);

    let result = a.xnor(b).unwrap();
    assert_eq!(result.to_u8(), !(170 ^ 85));
}

#[test]
fn test_from_u16_xnor() {
    let a = GarbledUint16::from_u16(43690);
    let b = GarbledUint16::from_u16(21845);

    let result = a.xnor(b).unwrap();
    assert_eq!(result.to_u16(), !(43690 ^ 21845));
}

#[test]
fn test_from_u32_xnor() {
    let a = GarbledUint32::from_u32(2863311530);
    let b = GarbledUint32::from_u32(1431655765);

    let result = a.xnor(b).unwrap();
    assert_eq!(result.to_u32(), !(2863311530 ^ 1431655765));

}

#[test]
fn test_from_u64_xnor() {
    let a = GarbledUint64::from_u64(12297829382473034410);
    let b = GarbledUint64::from_u64(6148914691236517205);

    let result = a.xnor(b).unwrap();
    assert_eq!(
        result.to_u64(),
        !(12297829382473034410 ^ 6148914691236517205)
    );

}

#[test]
fn test_from_u128_xnor() {
    let a = GarbledUint128::from_u128(170);
    let b = GarbledUint128::from_u128(85);

    let result = a.xnor(b).unwrap();
    assert_eq!(result.to_u128(), !(170 ^ 85));
}

#[test]
fn test_from_i8_xnor() {
    let a = GarbledInt8::from_i8(-86_i8);
    let b = GarbledInt8::from_i8(-43_i8);

    let result = a.xnor(b).unwrap();
    assert_eq!(result.to_i8(), !(-86_i8 ^ -43_i8));
}

#[test]
fn test_from_i16_xnor() {
    let a = GarbledInt::<16>::from_i16(-21846_i16);
    let b = GarbledInt::<16>::from_i16(-10923_i16);

    let result = a.xnor(b).unwrap();
    assert_eq!(result.to_i16(), !(-21846_i16 ^ -10923_i16));
}

#[test]
fn test_from_i32_xnor() {
    let a = GarbledInt::<32>::from_i32(-1431655766_i32);
    let b = GarbledInt::<32>::from_i32(-715827883_i32);

    let result = a.xnor(b).unwrap();
    assert_eq!(result.to_i32(), !(-1431655766_i32 ^ -715827883_i32));

}

#[test]
fn test_from_i64_xnor() {
    let a = GarbledInt::<64>::from_i64(-6148914691236517206_i64);
    let b = GarbledInt::<64>::from_i64(-3074457345618258603_i64);

    let result = a.xnor(b).unwrap();
    assert_eq!(
        result.to_i64(),
        !(-6148914691236517206_i64 ^ -3074457345618258603_i64)
    );

}

#[test]
fn test_from_i128_xnor() {
    let a = GarbledInt::<128>::from_i128(-6148914691236517206_i128);
    let b = GarbledInt::<128>::from_i128(-3074457345618258603_i128);

    let result = a.xnor(b).unwrap();
    assert_eq!(
        result.to_i128(),
        !(-6148914691236517206_i128 ^ -3074457345618258603_i128)
    );

}
