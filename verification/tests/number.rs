use zeropod::pod::elem::ZcElem;
use zeropod::pod::number::{
    PodI128, PodI16, PodI32, PodI64, PodU128, PodU16, PodU32, PodU64,
};
use zeropod::pod::vec::PodVec;

fn encoded<T: ZcElem>(value: T) -> Vec<u8> {
    let mut out = Vec::new();
    value.encode_into(&mut out);
    assert_eq!(out.len(), T::size());
    assert!(T::check(&out).is_none());
    out
}

#[test]
fn checked_arithmetic_matches_native() {
    let a = PodU64::from(100u64);
    let b = PodU64::from(42u64);
    assert_eq!(a.checked_add(b).map(|v| v.get()), Some(142));
    assert_eq!(a.checked_sub(b), Some(PodU64::from(58)));
    assert_eq!(b.checked_sub(a), None);
    assert_eq!(PodU64::from(u64::MAX).checked_add(PodU64::from(1)), None);
    assert_eq!(PodI64::from(i64::MIN).checked_sub(PodI64::from(1)), None);
    assert_eq!(PodI64::from(-5).checked_sub(PodI64::from(7)), Some(PodI64::from(-12)));
    assert_eq!(PodI16::from(i16::MAX).checked_add(PodI16::from(1)), None);
    assert_eq!(PodI16::from(-300).checked_add(PodI16::from(44)), Some(PodI16::from(-256)));
    assert_eq!(PodU16::from(3).checked_sub(PodU16::from(4)), None);
    assert_eq!(PodU32::from(7).checked_add(PodU32::from(8)), Some(PodU32::from(15)));
    assert_eq!(PodU128::from(u128::MAX).checked_sub(PodU128::from(u128::MAX)), Some(PodU128::from(0)));
    assert_eq!(PodI128::from(i128::MIN).checked_add(PodI128::from(-1)), None);
    assert_eq!(PodI32::from(-1).checked_add(PodI32::from(1)), Some(PodI32::from(0)));
}

#[test]
fn integers_are_little_endian() {
    assert_eq!(encoded(PodU16::from(0x0201)), vec![1, 2]);
    assert_eq!(encoded(PodU32::from(0x0403_0201)), vec![1, 2, 3, 4]);
    assert_eq!(encoded(PodU64::from(u64::MAX - 1)), (u64::MAX - 1).to_le_bytes().to_vec());
    assert_eq!(encoded(PodU128::from(1u128 << 100)), (1u128 << 100).to_le_bytes().to_vec());
    assert_eq!(encoded(PodI16::from(-2)), vec![0xfe, 0xff]);
    assert_eq!(encoded(PodI32::from(i32::MIN)), i32::MIN.to_le_bytes().to_vec());
    assert_eq!(encoded(PodI64::from(-1)), vec![0xff; 8]);
    assert_eq!(encoded(PodI128::from(i128::MIN + 5)), (i128::MIN + 5).to_le_bytes().to_vec());
}

#[test]
fn integers_read_back_what_was_written() {
    for v in [i64::MIN, -1, 0, 1, i64::MAX] {
        let bytes = encoded(PodI64::from(v));
        assert_eq!(<PodI64 as ZcElem>::decode(&bytes).get(), v);
    }
    for v in [i16::MIN, -129, 0, 255, i16::MAX] {
        let bytes = encoded(PodI16::from(v));
        assert_eq!(<PodI16 as ZcElem>::decode(&bytes).get(), v);
    }
    for v in [0u128, 1, u128::MAX / 3, u128::MAX] {
        let bytes = encoded(PodU128::from(v));
        assert_eq!(<PodU128 as ZcElem>::decode(&bytes).get(), v);
    }
    for v in [i128::MIN, -7, i128::MAX] {
        let bytes = encoded(PodI128::from(v));
        assert_eq!(<PodI128 as ZcElem>::decode(&bytes).get(), v);
    }
    for v in [0u32, 65536, u32::MAX] {
        let bytes = encoded(PodU32::from(v));
        assert_eq!(<PodU32 as ZcElem>::decode(&bytes).get(), v);
    }
    for v in [i32::MIN, -65536, i32::MAX] {
        let bytes = encoded(PodI32::from(v));
        assert_eq!(<PodI32 as ZcElem>::decode(&bytes).get(), v);
    }
}

#[test]
fn integer_vectors_store_elements_in_order() {
    let mut values = PodVec::<PodI32, 2, 1>::default();
    values.try_push(PodI32::from(-2)).unwrap();
    values.try_push(PodI32::from(3)).unwrap();
    assert_eq!(values.to_bytes(), vec![2, 0xfe, 0xff, 0xff, 0xff, 3, 0, 0, 0]);
    let mut value = PodU64::from(9);
    value.set(10);
    assert_eq!(value.get(), 10);
}

#[test]
fn operators_and_wrapping_arithmetic() {
    let a = PodU64::from(100u64);
    let b = PodU64::from(42u64);
    assert_eq!((a + b).get(), 142);
    assert_eq!((a - b).get(), 58);
    assert_eq!((PodI16::from(-3) + PodI16::from(5)).get(), 2);
    assert_eq!((PodI128::from(-3) - PodI128::from(5)).get(), -8);
    assert_eq!(PodU64::from(u64::MAX).wrapping_add(PodU64::from(2)).get(), 1);
    assert_eq!(PodU16::from(1).wrapping_sub(PodU16::from(2)).get(), u16::MAX);
    assert_eq!(PodI32::from(i32::MAX).wrapping_add(PodI32::from(1)).get(), i32::MIN);
    assert_eq!(PodI64::from(i64::MIN).wrapping_sub(PodI64::from(1)).get(), i64::MAX);
    assert_eq!(PodU128::from(5).wrapping_sub(PodU128::from(3)).get(), 2);
    assert_eq!(PodU32::from(u32::MAX).wrapping_add(PodU32::from(u32::MAX)).get(), u32::MAX - 1);
}
