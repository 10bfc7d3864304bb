//! The storage image of `PodString` / `PodVec` is fully initialized and
//! depends only on the logical value: spare capacity is written as zeros.
use zeropod::pod::number::PodU16;
use zeropod::pod::string::PodString;
use zeropod::pod::vec::PodVec;

#[test]
fn serialize_partial_podstring_zero_pads_capacity_and_roundtrips() {
    let mut s = PodString::<8, 1>::default();
    assert!(s.set("hi"));

    let bytes = s.to_bytes();

    // PFX(1) + N(8) = 9 bytes: [len][active][zeroed capacity].
    assert_eq!(bytes.len(), PodString::<8, 1>::size());
    assert_eq!(bytes, [2, b'h', b'i', 0, 0, 0, 0, 0, 0]);

    let back = PodString::<8, 1>::from_bytes(&bytes).unwrap();
    assert_eq!(back.as_str(), "hi");
}

#[test]
fn serialize_partial_podvec_zero_pads_capacity_and_roundtrips() {
    let mut v = PodVec::<PodU16, 4, 2>::default();
    assert!(v.push(PodU16::from(5)));
    assert!(v.push(PodU16::from(7)));

    let bytes = v.to_bytes();

    // PFX(2) + N(4)*size_of(PodU16)(2) = 10 bytes.
    assert_eq!(bytes.len(), PodVec::<PodU16, 4, 2>::size());
    assert_eq!(bytes, [2, 0, 5, 0, 7, 0, 0, 0, 0, 0]);

    let back = PodVec::<PodU16, 4, 2>::from_bytes(&bytes).unwrap();
    assert_eq!(back.len(), 2);
    assert_eq!(back.as_slice(), &[PodU16::from(5), PodU16::from(7)]);
}

#[test]
fn serialize_is_deterministic_regardless_of_stale_capacity() {
    // `truncated` once held a longer value, so its capacity tail still contains
    // the old "defgh" bytes. `fresh` only ever held "abc". Both represent the
    // same logical string and must serialize to identical bytes.
    let mut truncated = PodString::<16, 1>::default();
    assert!(truncated.set("abcdefgh"));
    truncated.truncate(3);
    assert_eq!(truncated.as_str(), "abc");

    let mut fresh = PodString::<16, 1>::default();
    assert!(fresh.set("abc"));

    let a = truncated.to_bytes();
    let b = fresh.to_bytes();
    assert_eq!(
        a, b,
        "serialization must not depend on stale capacity bytes"
    );

    // And the stale "defgh" must not leak into the output.
    assert!(!a[4..].iter().any(|&byte| byte != 0));
}
