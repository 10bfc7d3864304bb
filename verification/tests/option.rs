use zeropod::pod::option::PodOption;
use zeropod::pod::elem::PodBool;
use zeropod::pod::number::PodU16;
use zeropod::ZeroPodError;

#[test]
fn some_roundtrip() {
    for v in 0..=u8::MAX {
        let pod = PodOption::some(v);
        assert!(pod.is_some());
        assert!(!pod.is_none());
        assert!(pod.get() == Some(v), "some roundtrip must preserve value");
        assert_eq!(pod.raw_tag(), 1);
    }
}

#[test]
fn none_roundtrip() {
    let pod = PodOption::<u8>::none();
    assert!(pod.is_none());
    assert!(!pod.is_some());
    assert!(pod.get() == None, "none must return None");
    assert_eq!(pod.raw_tag(), 0);
}

#[test]
fn set_some_then_get() {
    for v in 0..=u8::MAX {
        let mut pod = PodOption::<u8>::none();
        pod.set(Some(v));
        assert!(pod.get() == Some(v), "set(Some(v)) then get() must return Some(v)");
    }
}

#[test]
fn set_none_then_get() {
    for v in 0..=u8::MAX {
        let mut pod = PodOption::some(v);
        pod.set(None);
        assert!(pod.get() == None, "set(None) then get() must return None");
        assert_eq!(pod.raw_tag(), 0);
    }
}

#[test]
fn take_returns_value_and_clears() {
    for v in 0..=u8::MAX {
        let mut pod = PodOption::some(v);
        let taken = pod.take();
        assert!(taken == Some(v), "take must return the value");
        assert!(pod.is_none(), "take must clear to None");
        assert_eq!(pod.take(), None);
    }
}

#[test]
fn replace_returns_old() {
    for old in [0u8, 1, 7, 128, 255] {
        for new in 0..=u8::MAX {
            let mut pod = PodOption::some(old);
            let returned = pod.replace(new);
            assert!(returned == Some(old), "replace must return old value");
            assert!(pod.get() == Some(new), "replace must set new value");
        }
    }
}

#[test]
fn replace_on_none_returns_none() {
    for v in 0..=u8::MAX {
        let mut pod = PodOption::<u8>::none();
        let returned = pod.replace(v);
        assert!(returned == None, "replace on None must return None");
        assert!(pod.get() == Some(v), "replace must set value");
    }
}

#[test]
fn invalid_tag_is_none() {
    // Storage with a tag other than 0 or 1 is never read as a value, so it
    // is never treated as present.
    for tag in 2..=u8::MAX {
        for payload in [0u8, 1, 42, 255] {
            let read = PodOption::<u8>::from_bytes(&[tag, payload]);
            assert_eq!(read.err(), Some(ZeroPodError::InvalidTag));
        }
    }
    for payload in [0u8, 1, 42, 255] {
        let present = PodOption::<u8>::from_bytes(&[1, payload]).unwrap();
        assert_eq!(present.get(), Some(payload));
        assert!(present.tag_valid());
        let absent = PodOption::<u8>::from_bytes(&[0, payload]).unwrap();
        assert_eq!(absent.get(), None);
        assert!(!absent.is_some());
        assert_eq!(absent.raw_tag(), 0);
    }
}

#[test]
fn unwrap_or_some() {
    for v in 0..=u8::MAX {
        let pod = PodOption::some(v);
        assert!(pod.unwrap_or(v.wrapping_add(1)) == v, "unwrap_or on Some must return value");
    }
}

#[test]
fn unwrap_or_none() {
    for default in 0..=u8::MAX {
        let pod = PodOption::<u8>::none();
        assert!(pod.unwrap_or(default) == default, "unwrap_or on None must return default");
    }
}

#[test]
fn default_is_none() {
    let pod = PodOption::<u8>::default();
    assert!(pod.is_none(), "default must be None");
    assert!(pod.raw_tag() == 0, "default tag must be 0");
}

#[test]
fn clear_makes_none() {
    for v in 0..=u8::MAX {
        let mut pod = PodOption::some(v);
        pod.clear();
        assert!(pod.is_none(), "clear must make None");
        assert_eq!(pod.raw_tag(), 0);
    }
}

#[test]
fn map_or_applies_only_to_present_values() {
    let pod = PodOption::some(20u8);
    assert_eq!(pod.map_or(0u16, |v| u16::from(v) * 3), 60);
    let empty = PodOption::<u8>::none();
    assert_eq!(empty.map_or(7u16, |v| u16::from(v) * 3), 7);
}

#[test]
fn assume_init_ref_reads_present_payload() {
    let pod = PodOption::some(77u8);
    assert_eq!(*pod.assume_init_ref(), 77);
}

#[test]
fn equality_compares_visible_values() {
    assert!(PodOption::some(3u8) == PodOption::some(3u8));
    assert!(PodOption::some(3u8) != PodOption::some(4u8));
    assert!(PodOption::some(3u8) != PodOption::none());
    assert!(PodOption::<u8>::none() == PodOption::none());
    // An absent value read from storage equals any other absent value.
    assert!(PodOption::<u8>::from_bytes(&[0, 5]).unwrap() == PodOption::none());
    assert!(PodOption::some(3u8) == Some(3u8));
    assert!(PodOption::some(3u8) != Some(4u8));
    assert!(PodOption::<u8>::none() == None);
    assert!(PodOption::some(3u8) != None);
}

#[test]
fn clone_keeps_tag_and_value() {
    let pod = PodOption::some(1u8);
    let copy = pod.clone();
    assert_eq!(copy.raw_tag(), 1);
    assert_eq!(copy.get(), Some(1));
}

#[test]
fn storage_image_of_present_and_absent_values() {
    assert_eq!(PodOption::<PodU16>::size(), 3);
    assert_eq!(PodOption::some(PodU16::from(0x0201)).to_bytes(), vec![1, 1, 2]);
    assert_eq!(PodOption::<PodU16>::none().to_bytes(), vec![0, 0, 0]);
    let back = PodOption::<PodU16>::from_bytes(&[1, 5, 0]).unwrap();
    assert_eq!(back.get().map(|v| v.get()), Some(5));
    // An absent value's payload slot is not part of the value: it is
    // written as zeros.
    let absent = PodOption::<PodU16>::from_bytes(&[0, 9, 9]).unwrap();
    assert!(absent.is_none());
    assert_eq!(absent.to_bytes(), vec![0, 0, 0]);
    let mut cleared = absent;
    cleared.clear();
    assert_eq!(cleared.to_bytes(), PodOption::<PodU16>::none().to_bytes());
    let mut taken = PodOption::some(PodU16::from(7));
    assert_eq!(taken.take().map(|v| v.get()), Some(7));
    assert_eq!(taken.to_bytes(), vec![0, 0, 0]);
    let mut reset = PodOption::some(PodU16::from(0x0201));
    assert_eq!(reset.to_bytes(), vec![1, 1, 2]);
    reset.set(None);
    assert_eq!(reset.to_bytes(), vec![0, 0, 0]);
    assert_eq!(PodOption::<PodBool>::from_bytes(&[0, 2]).unwrap().to_bytes(), vec![0, 0]);
    assert_eq!(PodOption::<PodU16>::validate(&[2, 0, 0]), Err(ZeroPodError::InvalidTag));
    assert_eq!(PodOption::<PodU16>::validate(&[1, 0]), Err(ZeroPodError::BufferTooSmall));
    assert_eq!(PodOption::<PodBool>::validate(&[1, 2]), Err(ZeroPodError::InvalidBool));
    // An absent value does not check its payload slot.
    assert_eq!(PodOption::<PodBool>::validate(&[0, 2]), Ok(()));
    for tag in 0..=u8::MAX {
        for payload in [0u8, 1, 2, 255] {
            let bytes = [tag, payload];
            let valid = PodOption::<PodBool>::validate(&bytes).is_ok();
            assert_eq!(valid, tag == 0 || (tag == 1 && payload <= 1));
            assert_eq!(PodOption::<PodBool>::from_bytes(&bytes).is_ok(), valid);
        }
    }
}
