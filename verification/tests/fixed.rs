use std::hint::black_box;
use zeropod::compact::model::{ByteRule, TailField, TailKind};
use zeropod::compact::schema::CompactSchema;
use zeropod::compact::view::validate;
use zeropod::pod::string::PodString;
use zeropod::pod::vec::PodVec;
use zeropod::ZeroPodError;

/// Writes `value` into zeroed account storage, as a typed assignment
/// through a checked view would, and checks the storage afterwards.
fn store(value: &PodString<4, 1>) {
    let mut bytes = vec![0; PodString::<4, 1>::size()];
    PodString::<4, 1>::validate(&bytes).unwrap();
    bytes.copy_from_slice(&value.to_bytes());
    // Account storage must remain readable as bytes after safe typed assignment.
    for byte in &bytes {
        black_box(*byte);
    }
    assert!(PodString::<4, 1>::validate(&bytes).is_ok());
}

#[test]
fn contract_fixed_string_writes() {
    for text in ["", "a", "é", "abcd"] {
        let mut value = PodString::<4, 1>::default();
        value.try_set(text).unwrap();
        store(&value);
    }
}

#[test]
fn contract_length_overflow() {
    // `values: PodVec<PodU16, { usize::MAX }, 8>`.
    let large = CompactSchema::new(
        vec![],
        vec![TailField {
            kind: TailKind::Vec { elem_size: 2, rule: ByteRule::Any },
            max: usize::MAX as u64,
            pfx: 8,
            optional: false,
        }],
    )
    .unwrap();
    let bytes = (usize::MAX as u64).to_le_bytes();
    assert!(validate(&large, &bytes).is_err());
    let mut zero_sized = PodVec::<[u8; 0], 2, 2>::default();
    zero_sized.try_push([]).unwrap();
    assert_eq!(
        zero_sized.try_extend_from_slice(&[[]; usize::MAX]),
        Err(ZeroPodError::Overflow)
    );
    assert_eq!(zero_sized.len(), 1);
}
