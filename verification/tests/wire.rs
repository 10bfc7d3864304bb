//! Byte images read back and written again: a value read from storage
//! writes back the bytes it was read from, spare capacity as zeros.
use std::hint::black_box;
use zeropod::pod::elem::{PodBool, ZcElem};
use zeropod::pod::string::PodString;
use zeropod::pod::option::PodOption;
use zeropod::pod::vec::PodVec;
use zeropod::ZeroPodError;

// Every truncation, boundary-byte substitution, and a bounded multi-byte corpus.
fn corpus(seed: &[u8], mut check: impl FnMut(&mut [u8])) {
    let mut cases = vec![seed.to_vec()];
    for len in 0..seed.len() {
        cases.push(seed[..len].to_vec());
    }
    for index in 0..seed.len() {
        for byte in [0, 1, 2, 0x7f, 0x80, 0xff] {
            let mut bytes = seed.to_vec();
            bytes[index] = byte;
            cases.push(bytes);
        }
    }
    let mut state = 0x6a09e667f3bcc909u64;
    for len in 0..=seed.len() + 1 {
        cases.push(
            (0..len)
                .map(|_| {
                    state ^= state << 13;
                    state ^= state >> 7;
                    state ^= state << 17;
                    state as u8
                })
                .collect(),
        );
    }
    for bytes in &cases {
        for offset in [0, 1, 7] {
            let mut storage = vec![0xa5; offset + bytes.len() + 1];
            storage[offset..offset + bytes.len()].copy_from_slice(bytes);
            check(&mut storage[offset..offset + bytes.len()]);
            assert!(storage[..offset].iter().all(|&b| b == 0xa5));
            assert_eq!(storage[offset + bytes.len()], 0xa5);
        }
    }
}

#[test]
fn contract_wincode_bools() {
    for byte in 0..=u8::MAX {
        assert_eq!(<PodBool as ZcElem>::check(&[byte]).is_none(), byte <= 1);
        assert_eq!(PodVec::<PodBool, 1, 1>::validate(&[1, byte]).is_ok(), byte <= 1);
        if byte > 1 {
            assert_eq!(
                PodVec::<PodBool, 1, 1>::validate(&[1, byte]),
                Err(ZeroPodError::InvalidBool)
            );
        }
    }
    corpus(&[1], |bytes| {
        if bytes.len() == 1 && <PodBool as ZcElem>::check(bytes).is_none() {
            let value = <PodBool as ZcElem>::decode(bytes);
            black_box(value.get());
            let mut output = Vec::new();
            value.encode_into(&mut output);
            assert_eq!(&output[..], &bytes[..]);
        }
    });
}

#[test]
fn contract_wincode_strings() {
    corpus(&[2, b'o', b'k'], |bytes| {
        if let Ok(value) = PodString::<2, 1>::from_bytes(bytes) {
            assert!(value.len() <= 2);
            black_box(value.as_str().chars().last());
            let output = value.to_bytes();
            let used = 1 + value.len();
            assert_eq!(output.len(), PodString::<2, 1>::size());
            assert_eq!(&output[..used], &bytes[..used]);
            assert!(output[used..].iter().all(|&b| b == 0));
        }
    });
}

#[test]
fn vec_of_bools_reads_back() {
    corpus(&[2, 0, 1], |bytes| {
        let valid = PodVec::<PodBool, 2, 1>::validate(bytes).is_ok();
        let value = PodVec::<PodBool, 2, 1>::from_bytes(bytes);
        assert_eq!(value.is_ok(), valid);
        if let Ok(value) = value {
            let output = value.to_bytes();
            let used = 1 + value.len();
            assert_eq!(&output[..used], &bytes[..used]);
            assert!(output[used..].iter().all(|&b| b == 0));
        }
    });
}

fn read_text<const N: usize, const PFX: usize>(value: &PodString<N, PFX>) {
    assert!(value.len() <= N);
    let expected = std::str::from_utf8(value.as_bytes()).unwrap();
    assert_eq!(value.as_str().chars().collect::<String>(), expected);
}

#[test]
fn contract_wincode_vectors() {
    corpus(&[1, 0, 2, b'o', b'k'], |bytes| {
        let valid = PodVec::<PodString<2, 1>, 1, 2>::validate(bytes).is_ok();
        let value = PodVec::<PodString<2, 1>, 1, 2>::from_bytes(bytes);
        assert_eq!(value.is_ok(), valid);
        if let Ok(v) = value {
            assert!(v.len() <= 1);
            for s in v.as_slice() {
                read_text(s);
            }
            // The prefix and the held elements are written back as read;
            // the spare capacity is written as zeros.
            let output = v.to_bytes();
            let used = 2 + 3 * v.len();
            assert_eq!(&output[..used], &bytes[..used]);
            assert!(output[used..].iter().all(|&b| b == 0));
        }
    });
    // The same vector nested as the element of another.
    corpus(&[1, 1, 0, 2, b'o', b'k'], |bytes| {
        let valid = PodVec::<PodVec<PodString<2, 1>, 1, 2>, 1, 1>::validate(bytes).is_ok();
        let value = PodVec::<PodVec<PodString<2, 1>, 1, 2>, 1, 1>::from_bytes(bytes);
        assert_eq!(value.is_ok(), valid);
        if let Ok(v) = value {
            for inner in v.as_slice() {
                assert!(inner.len() <= 1);
                for s in inner.as_slice() {
                    read_text(s);
                }
            }
        }
    });
}

#[test]
fn contract_wincode_options() {
    corpus(NESTED_BYTES, |bytes| {
        if let Ok(value) = NestedValue::from_bytes(bytes) {
            read_nested(&value);
            let output = value.to_bytes();
            assert_eq!(output.len(), NestedValue::size());
            assert!(NestedValue::validate(&output).is_ok());
        }
    });
    corpus(&[1, 2, b'o', b'k'], |bytes| {
        let value = PodOption::<PodString<2, 1>>::from_bytes(bytes);
        assert_eq!(value.is_ok(), PodOption::<PodString<2, 1>>::validate(bytes).is_ok());
        if let Ok(v) = value {
            assert!(v.tag_valid());
            if let Some(s) = v.get_ref() {
                read_text(s);
                let output = v.to_bytes();
                assert_eq!(&output[..2 + s.len()], &bytes[..2 + s.len()]);
            }
        }
    });
}

#[test]
fn nested_storage_of_vectors_and_strings() {
    // `PodOption<PodVec<PodString<2, 4>, 2, 1>>`.
    let mut values = PodVec::<PodString<2, 4>, 2, 1>::default();
    let mut text = PodString::<2, 4>::default();
    text.try_set("é").unwrap();
    values.try_push(PodString::default()).unwrap();
    values.try_push(text).unwrap();
    let mut value = PodOption::some(values);
    let bytes = value.to_bytes();
    assert_eq!(
        bytes,
        vec![1, 2, 0, 0, 0, 0, 0, 0, 2, 0, 0, 0, 0xc3, 0xa9]
    );
    let back = PodOption::<PodVec<PodString<2, 4>, 2, 1>>::from_bytes(&bytes).unwrap();
    let inner = back.get().unwrap();
    assert_eq!(inner.len(), 2);
    assert_eq!(inner.as_slice()[1].as_str(), "é");
    let mut values = value.take().unwrap();
    assert!(values.remove(0).unwrap().is_empty());
    value.set(Some(values));
    assert_eq!(value.get().unwrap().len(), 1);
    value.clear();
    assert_eq!(value.to_bytes(), vec![0; 1 + 1 + 2 * 6]);
    // Copies are independent values.
    let copy = text;
    text.clear();
    assert_eq!(copy.as_str(), "é");
    assert!(text.is_empty());
}

/// `PodOption<PodVec<PodOption<PodString<2, 4>>, 2, 1>>`.
type NestedValue = PodOption<PodVec<PodOption<PodString<2, 4>>, 2, 1>>;
const NESTED_BYTES: &[u8] = &[
    1, 1, 1, 2, 0, 0, 0, b'o', b'k', 255, 255, 255, 255, 255, 255, 255,
];

fn read_nested(value: &NestedValue) {
    assert!(value.tag_valid());
    if let Some(values) = value.get_ref() {
        assert!(values.len() <= 2);
        for value in values.as_slice() {
            assert!(value.tag_valid());
            if let Some(text) = value.get_ref() {
                read_text(text);
            }
        }
    }
}

fn store(value: NestedValue) {
    let mut bytes = vec![0; NestedValue::size()];
    assert!(NestedValue::validate(&bytes).is_ok());
    bytes.copy_from_slice(&value.to_bytes());
    for byte in &bytes {
        black_box(*byte);
    }
    assert!(NestedValue::validate(&bytes).is_ok());
    let back = NestedValue::from_bytes(&bytes).unwrap();
    assert_eq!(back.to_bytes(), value.to_bytes());
}

#[test]
fn contract_nested_storage() {
    corpus(NESTED_BYTES, |bytes| {
        let valid = NestedValue::validate(bytes).is_ok();
        let value = NestedValue::from_bytes(bytes);
        assert_eq!(value.is_ok(), valid);
        if let Ok(value) = value {
            read_nested(&value);
        }
    });
    let mut values = PodVec::default();
    values.try_push(PodOption::none()).unwrap();
    let mut text = PodString::default();
    text.try_set("é").unwrap();
    values.try_push(PodOption::some(text)).unwrap();
    let mut value = NestedValue::some(values);
    read_nested(&value);
    store(value);
    values = value.take().unwrap();
    assert!(values.remove(0).unwrap().is_none());
    value.set(Some(values));
    read_nested(&value);
    store(value);
    value.clear();
    store(value);
}

#[test]
fn nested_options_read_back() {
    let value = NestedValue::from_bytes(NESTED_BYTES).unwrap();
    let values = value.get().unwrap();
    assert_eq!(values.len(), 1);
    assert_eq!(values.as_slice()[0].get().unwrap().as_str(), "ok");
    // The spare element slot is written as zeros.
    let mut expected = NESTED_BYTES[..9].to_vec();
    expected.extend([0; 7]);
    assert_eq!(value.to_bytes(), expected);
}
