use std::hint::black_box;
use zeropod::pod::elem::{PodBool, ZcElem};
use zeropod::pod::number::{PodI64, PodU128, PodU16};
use zeropod::pod::option::PodOption;
use zeropod::pod::string::PodString;
use zeropod::pod::vec::PodVec;
use zeropod::ZeroPodError;

// Every truncation, boundary-byte substitution, and a bounded multi-byte corpus.
fn corpus(seed: &[u8], mut check: impl FnMut(&mut [u8])) {
    let mut cases = vec![seed.to_vec()];
    for len in 0..seed.len() {
        cases.push(seed[..len].to_vec());
    }
    for index in 0..seed.len() {
        for byte in [0, 1, 2, 0x7f, 0x80, 0xff] {
            let mut bytes = seed.to_vec();
            bytes[index] = byte;
            cases.push(bytes);
        }
    }
    let mut state = 0x6a09e667f3bcc909u64;
    for len in 0..=seed.len() + 1 {
        cases.push(
            (0..len)
                .map(|_| {
                    state ^= state << 13;
                    state ^= state >> 7;
                    state ^= state << 17;
                    state as u8
                })
                .collect(),
        );
    }
    for (case, bytes) in cases.iter().enumerate() {
        for offset in [0, 1, 7] {
            let mut storage = vec![0xa5; offset + bytes.len() + 1];
            storage[offset..offset + bytes.len()].copy_from_slice(bytes);
            println!("case={case} offset={offset} bytes={bytes:02x?}");
            check(&mut storage[offset..offset + bytes.len()]);
            assert!(storage[..offset].iter().all(|&b| b == 0xa5));
            assert_eq!(storage[offset + bytes.len()], 0xa5);
        }
    }
}

fn read_text<const N: usize, const PFX: usize>(value: &PodString<N, PFX>) {
    assert!(value.len() <= N);
    let expected = std::str::from_utf8(value.as_bytes()).unwrap();
    assert_eq!(value.as_str().chars().collect::<String>(), expected);
}

#[test]
fn contract_prefix_widths() {
    fn run<const PFX: usize>() {
        let mut text = vec![0; PFX];
        text[0] = 2;
        text.extend("é".as_bytes());
        corpus(&text, |bytes| {
            let valid = PodString::<2, PFX>::validate(bytes).is_ok();
            let value = PodString::<2, PFX>::from_bytes(bytes);
            assert_eq!(value.is_ok(), valid);
            if let Ok(value) = value {
                read_text(&value);
            }
        });
        let mut values = vec![0; PFX];
        values[0] = 1;
        values.extend([7, 0, 0, 0]);
        corpus(&values, |bytes| {
            let valid = PodVec::<PodU16, 2, PFX>::validate(bytes).is_ok();
            let value = PodVec::<PodU16, 2, PFX>::from_bytes(bytes);
            assert_eq!(value.is_ok(), valid);
            if let Ok(v) = value {
                assert!(v.len() <= 2);
                for value in v.as_slice() {
                    black_box(value.get());
                }
            }
        });
    }
    run::<1>();
    run::<2>();
    run::<4>();
    run::<8>();
}

#[test]
fn contract_fixed_vec_writes() {
    for len in 0..=4 {
        let mut value = PodVec::<PodU16, 4, 1>::default();
        value.try_set_from_slice(&[7u16.into(); 4][..len]).unwrap();
        for index in 0..len {
            assert!(value.set(index, 8u16.into()));
        }
        if len > 0 {
            assert!(value.set(len - 1, 513u16.into()));
        }
        assert!(!value.set(len, 1u16.into()));
        let mut expected = vec![8; len];
        if let Some(last) = expected.last_mut() {
            *last = 513;
        }
        assert_eq!(
            value.as_slice().iter().map(|item| item.get()).collect::<Vec<_>>(),
            expected
        );
        let mut bytes = vec![0; PodVec::<PodU16, 4, 1>::size()];
        assert!(PodVec::<PodU16, 4, 1>::validate(&bytes).is_ok());
        bytes.copy_from_slice(&value.to_bytes());
        for byte in &bytes {
            black_box(*byte);
        }
        assert!(PodVec::<PodU16, 4, 1>::validate(&bytes).is_ok());
    }
}

#[test]
fn contract_string_sequences() {
    fn run<const N: usize, const PFX: usize>() {
        let mut pod = PodString::<N, PFX>::default();
        let mut model = String::new();
        for text in ["", "a", "é", "🦀", "abcde"] {
            for append in [false, true] {
                let expected = if append {
                    model.clone() + text
                } else {
                    text.to_owned()
                };
                let result = if append {
                    pod.try_push_str(text)
                } else {
                    pod.try_set(text)
                };
                assert_eq!(result.is_ok(), expected.len() <= N);
                if result.is_ok() {
                    model = expected;
                }
                assert_eq!(pod.as_str(), model);
                assert_eq!(pod.as_str().chars().collect::<String>(), model);
                for len in (0..=N + 1).rev() {
                    let mut truncated = pod;
                    let mut expected = model.clone();
                    let mut end = len.min(model.len());
                    while !model.is_char_boundary(end) {
                        end -= 1;
                    }
                    expected.truncate(end);
                    truncated.truncate(len);
                    assert_eq!(truncated.as_bytes(), expected.as_bytes());
                }
            }
        }
        pod.clear();
        assert!(pod.is_empty());
    }
    run::<0, 1>();
    run::<4, 1>();
    run::<4, 2>();
    run::<4, 4>();
    run::<4, 8>();
}

#[test]
fn contract_vec_sequences() {
    fn run<const N: usize, const PFX: usize>() {
        // Exhaust all four-operation sequences over this small operation alphabet.
        for sequence in 0..8usize.pow(4) {
            let mut pod = PodVec::<u8, N, PFX>::default();
            let mut model = Vec::new();
            let mut operations = sequence;
            for _ in 0..4 {
                match operations % 8 {
                    0 => {
                        assert_eq!(pod.try_push(7).is_ok(), model.len() < N);
                        if model.len() < N {
                            model.push(7);
                        }
                    }
                    1 => assert_eq!(pod.pop(), model.pop()),
                    2 => {
                        assert_eq!(
                            pod.try_extend_from_slice(&[1, 2]).is_ok(),
                            model.len() + 2 <= N
                        );
                        if model.len() + 2 <= N {
                            model.extend([1, 2]);
                        }
                    }
                    3 => assert_eq!(
                        pod.remove(0),
                        if model.is_empty() {
                            None
                        } else {
                            Some(model.remove(0))
                        }
                    ),
                    4 => assert_eq!(
                        pod.swap_remove(0),
                        if model.is_empty() {
                            None
                        } else {
                            Some(model.swap_remove(0))
                        }
                    ),
                    5 => {
                        pod.retain(|v| v % 2 == 0);
                        model.retain(|v| v % 2 == 0);
                    }
                    6 => {
                        pod.truncate(1);
                        model.truncate(1);
                    }
                    _ => {
                        pod.clear();
                        model.clear();
                    }
                }
                assert_eq!(
                    pod.as_slice(),
                    model,
                    "capacity={N} prefix={PFX} sequence={sequence}"
                );
                assert_eq!(pod.get(N), None);
                operations /= 8;
            }
        }
    }
    run::<0, 1>();
    run::<2, 1>();
    run::<2, 2>();
    run::<2, 4>();
    run::<2, 8>();
}

#[test]
fn contract_option_sequences() {
    fn run<T: Copy + Eq + std::fmt::Debug>(values: &[T]) {
        let mut pod = PodOption::<T>::none();
        let mut model = None;
        for &value in values {
            assert_eq!(pod.get(), model);
            assert_eq!(pod.get_ref(), model.as_ref());
            assert_eq!(pod.replace(value), model.replace(value));
            assert_eq!(pod.assume_init_ref(), &value);
            assert_eq!(pod.get_ref(), model.as_ref());
            assert_eq!(pod.take(), model.take());
            pod.set(Some(value));
            model = Some(value);
            assert_eq!(pod.get(), model);
            pod.clear();
            model = None;
            assert_eq!(pod.get(), model);
        }
    }
    run(&[0u8, 1, 255]);
    run(&[false, true]);
    run(&[std::num::NonZeroU8::new(1).unwrap()]);
    run(&["", "borrowed"]);
}

#[test]
fn retain_keeps_matching_in_order() {
    let mut pod = PodVec::<u8, 4, 1>::default();
    pod.try_set_from_slice(&[1, 2, 3, 4]).unwrap();
    pod.retain(|v| v % 2 == 0);
    assert_eq!(pod.as_slice(), &[2, 4]);
    pod.retain(|_| false);
    assert!(pod.is_empty());
}

#[test]
fn set_from_slice_refuses_overflow_unchanged() {
    let mut pod = PodVec::<u8, 2, 1>::default();
    pod.try_set_from_slice(&[5]).unwrap();
    assert_eq!(pod.try_set_from_slice(&[1, 2, 3]), Err(ZeroPodError::Overflow));
    assert_eq!(pod.as_slice(), &[5]);
    pod.try_set_from_slice(&[1, 2]).unwrap();
    assert_eq!(pod.as_slice(), &[1, 2]);
}

#[test]
fn vec_image_is_prefix_elements_and_zeroed_capacity() {
    let mut pod = PodVec::<PodU16, 3, 2>::default();
    pod.try_push(PodU16::from(0x0201)).unwrap();
    assert_eq!(pod.to_bytes(), vec![1, 0, 1, 2, 0, 0, 0, 0]);
    assert_eq!(PodVec::<PodU16, 3, 2>::size(), 8);
    assert_eq!(<PodU16 as ZcElem>::size(), 2);
    let back = PodVec::<PodU16, 3, 2>::from_bytes(&pod.to_bytes()).unwrap();
    assert_eq!(back.as_slice(), pod.as_slice());
}

#[test]
fn vec_image_rejects_long_prefix_and_short_buffer() {
    assert_eq!(
        PodVec::<u8, 2, 1>::validate(&[3, 0, 0]),
        Err(ZeroPodError::InvalidLength)
    );
    assert_eq!(
        PodVec::<u8, 2, 1>::validate(&[1, 0]),
        Err(ZeroPodError::BufferTooSmall)
    );
    assert_eq!(PodVec::<u8, 2, 1>::validate(&[2, 9, 8]), Ok(()));
}

#[test]
fn contract_fixed_bytes() {
    corpus(&[1], |bytes| {
        let valid = PodVec::<PodBool, 1, 1>::validate(&[&[1][..], bytes].concat()).is_ok();
        assert_eq!(valid, bytes.len() >= 1 && bytes[0] <= 1);
        if bytes.len() == 1 && valid {
            black_box(<PodBool as ZcElem>::decode(bytes).get());
        }
    });
    corpus(&u128::MAX.to_le_bytes(), |bytes| {
        let valid = PodVec::<PodU128, 1, 1>::validate(&[&[1][..], bytes].concat()).is_ok();
        assert_eq!(valid, bytes.len() >= 16);
        if valid {
            let value = <PodU128 as ZcElem>::decode(&bytes[..16]);
            assert_eq!(value.get().to_le_bytes(), bytes[..16]);
        }
    });
    corpus(&i64::MIN.to_le_bytes(), |bytes| {
        let valid = PodVec::<PodI64, 1, 1>::validate(&[&[1][..], bytes].concat()).is_ok();
        assert_eq!(valid, bytes.len() >= 8);
        if valid {
            let value = <PodI64 as ZcElem>::decode(&bytes[..8]);
            assert_eq!(value.get().to_le_bytes(), bytes[..8]);
        }
    });
    corpus(&[2, 0xc3, 0xa9, 0, 0], |bytes| {
        let valid = PodString::<4, 1>::validate(bytes).is_ok();
        let value = PodString::<4, 1>::from_bytes(bytes);
        assert_eq!(value.is_ok(), valid);
        if let Ok(value) = value {
            read_text(&value);
        }
    });
    corpus(&[1, 2, b'o', b'k'], |bytes| {
        let valid = PodOption::<PodString<2, 1>>::validate(bytes).is_ok();
        let value = PodOption::<PodString<2, 1>>::from_bytes(bytes);
        assert_eq!(value.is_ok(), valid);
        if let Ok(value) = value {
            if let Some(text) = value.get_ref() {
                read_text(text);
            }
        }
    });
    corpus(&[2, 0, 0, 1], |bytes| {
        let valid = PodVec::<PodBool, 2, 2>::validate(bytes).is_ok();
        let value = PodVec::<PodBool, 2, 2>::from_bytes(bytes);
        assert_eq!(value.is_ok(), valid);
        if let Ok(value) = value {
            for item in value.as_slice() {
                black_box(item.get());
            }
        }
    });
}
