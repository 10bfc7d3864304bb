use std::hint::black_box;
use zeropod::compact::edit::CompactMut;
use zeropod::compact::enums::{CompactEnum, EnumMut, EnumRef, EnumVariant};
use zeropod::compact::model::{ByteRule, InlineField, TailField, TailKind};
use zeropod::compact::schema::CompactSchema;
use zeropod::compact::view::{header, validate, CompactRef};
use zeropod::pod::string::PodString;
use zeropod::pod::vec::PodVec;
use zeropod::pod::number::PodU16;
use zeropod::ZeroPodError;

fn string(max: u64, pfx: usize, optional: bool) -> TailField {
    TailField { kind: TailKind::Str, max, pfx, optional }
}

fn vector(elem_size: usize, max: u64, pfx: usize, optional: bool) -> TailField {
    TailField { kind: TailKind::Vec { elem_size, rule: ByteRule::Any }, max, pfx, optional }
}

/// `active: bool`, `name: String<4>`, `values: Vec<u16, 2>`, `note: Option<String<4>>`.
fn record_schema() -> CompactSchema {
    CompactSchema::new(
        vec![InlineField { size: 1, rule: ByteRule::Bool }],
        vec![string(4, 1, false), vector(2, 2, 2, false), string(4, 1, true)],
    )
    .unwrap()
}

fn record_bytes(name: &str, values: &[u16], note: Option<&str>) -> Vec<u8> {
    let mut bytes = vec![
        1,
        name.len() as u8,
        values.len() as u8,
        0,
        u8::from(note.is_some()),
    ];
    bytes.extend(name.as_bytes());
    for value in values {
        bytes.extend(value.to_le_bytes());
    }
    if let Some(note) = note {
        bytes.push(note.len() as u8);
        bytes.extend(note.as_bytes());
    }
    bytes
}

fn assert_commit(
    result: Result<usize, ZeroPodError>,
    bytes: &[u8],
    before: &[u8],
    expected: &[u8],
) {
    if expected.len() <= bytes.len() {
        assert_eq!(result, Ok(expected.len()));
        assert_eq!(&bytes[..expected.len()], expected);
    } else {
        assert_eq!(result, Err(ZeroPodError::BufferTooSmall));
        assert_eq!(bytes, before);
    }
}

#[test]
fn contract_compact_edits() {
    for name in ["", "é", "abcd"] {
        for values in [&[][..], &[1u16][..], &[2, 513][..]] {
            for note in [None, Some(""), Some("🦀")] {
                check_record_edits(name, values, note);
            }
        }
    }
}

fn check_record_edits(name: &str, values: &[u16], note: Option<&str>) {
    let schema = record_schema();
    let initial = record_bytes(name, values, note);
    let edits = 257u16.to_le_bytes();
    for mask in 0..8 {
        let next_name = if mask & 1 != 0 { "xyz" } else { name };
        let next_values = if mask & 2 != 0 { &[257][..] } else { values };
        let next_note = if mask & 4 != 0 { Some("a") } else { note };
        let expected = record_bytes(next_name, next_values, next_note);
        for capacity in [initial.len(), initial.len().max(expected.len()) + 2] {
            let mut bytes = initial.clone();
            bytes.resize(capacity, 0xa5);
            let before = bytes.clone();
            let mut view = CompactMut::new(&schema, &bytes).unwrap();
            if mask & 1 != 0 {
                view.set_str(0, next_name).unwrap();
            }
            if mask & 2 != 0 {
                view.set_vec(1, 1, &edits).unwrap();
            }
            if mask & 4 != 0 {
                view.set_opt_str(2, next_note).unwrap();
            }
            assert_eq!(view.projected_size(&bytes), expected.len());
            let result = view.commit(&mut bytes);
            assert_commit(result, &bytes, &before, &expected);
            if result.is_ok() {
                let read = CompactRef::new(&schema, &bytes).unwrap();
                assert_eq!(read.text(0), Some(next_name));
                assert_eq!(read.text(2), next_note);
            }
        }
    }
}

/// `marker: T`, `first: PodVec<T, 2, 1>`, `maybe: Option<PodVec<T, 2, 4>>`,
/// `last: PodVec<T, 2, 2>`, `text: Option<PodString<4, 8>>`.
fn tails_schema(elem_size: usize) -> CompactSchema {
    CompactSchema::new(
        vec![InlineField { size: elem_size, rule: ByteRule::Any }],
        vec![
            vector(elem_size, 2, 1, false),
            vector(elem_size, 2, 4, true),
            vector(elem_size, 2, 2, false),
            string(4, 8, true),
        ],
    )
    .unwrap()
}

fn tail_bytes(
    marker: &[u8],
    first: &[Vec<u8>],
    maybe: Option<&[Vec<u8>]>,
    last: &[Vec<u8>],
    text: Option<&str>,
) -> Vec<u8> {
    let mut bytes = marker.to_vec();
    bytes.extend([first.len() as u8, u8::from(maybe.is_some())]);
    bytes.extend((last.len() as u16).to_le_bytes());
    bytes.push(u8::from(text.is_some()));
    for value in first {
        bytes.extend(value);
    }
    if let Some(maybe) = maybe {
        bytes.extend((maybe.len() as u32).to_le_bytes());
        for value in maybe {
            bytes.extend(value);
        }
    }
    for value in last {
        bytes.extend(value);
    }
    if let Some(text) = text {
        bytes.extend((text.len() as u64).to_le_bytes());
        bytes.extend(text.as_bytes());
    }
    bytes
}

fn flat(values: &[Vec<u8>]) -> Vec<u8> {
    values.concat()
}

#[test]
fn contract_mixed_tail_edits() {
    fn run(values: [Vec<u8>; 2]) {
        for first in [&values[..0], &values[..2]] {
            for maybe in [None, Some(&values[..0]), Some(&values[..2])] {
                for last in [&values[..0], &values[..2]] {
                    for text in [None, Some(""), Some("é")] {
                        check_tail_edits(&values, first, maybe, last, text);
                    }
                }
            }
        }
    }
    run([PodU16::from(513).get().to_le_bytes().to_vec(), 1027u16.to_le_bytes().to_vec()]);
    run([vec![], vec![]]);
}

fn check_tail_edits(
    values: &[Vec<u8>; 2],
    first: &[Vec<u8>],
    maybe: Option<&[Vec<u8>]>,
    last: &[Vec<u8>],
    text: Option<&str>,
) {
    let elem_size = values[0].len();
    let schema = tails_schema(elem_size);
    let initial = tail_bytes(&values[0], first, maybe, last, text);
    for mask in 0..16 {
        let next_first = if mask & 1 != 0 { &values[..1] } else { first };
        let next_maybe = if mask & 2 == 0 {
            maybe
        } else {
            match maybe {
                None => Some(&values[..1]),
                Some([]) => Some(&values[..2]),
                Some(_) => None,
            }
        };
        let next_last = if mask & 4 != 0 {
            &values[..2 - last.len()]
        } else {
            last
        };
        let next_text = if mask & 8 == 0 {
            text
        } else {
            match text {
                None => Some("é"),
                Some("") => Some("xyz"),
                Some(_) => None,
            }
        };
        let expected = tail_bytes(&values[0], next_first, next_maybe, next_last, next_text);
        let all = flat(values);
        let first_bytes = flat(next_first);
        let maybe_bytes = next_maybe.map(flat);
        let last_bytes = flat(next_last);
        for capacity in [initial.len(), initial.len().max(expected.len()) + 1] {
            let mut storage = vec![0xa5; capacity + 2];
            storage[1..1 + initial.len()].copy_from_slice(&initial);
            let before = storage.clone();
            let bytes = &mut storage[1..1 + capacity];
            let mut view = CompactMut::new(&schema, bytes).unwrap();
            if mask & 1 != 0 {
                view.set_vec(0, 2, &all).unwrap();
                view.set_vec(0, next_first.len() as u64, &first_bytes).unwrap();
            }
            if mask & 2 != 0 {
                let staged = match &maybe_bytes {
                    Some(b) => Some((next_maybe.unwrap().len() as u64, &b[..])),
                    None => None,
                };
                view.set_opt_vec(1, staged).unwrap();
            }
            if mask & 4 != 0 {
                view.set_vec(2, next_last.len() as u64, &last_bytes).unwrap();
            }
            if mask & 8 != 0 {
                view.set_opt_str(3, next_text).unwrap();
            }
            assert_eq!(view.projected_size(bytes), expected.len());
            let result = view.commit(bytes);
            if result.is_ok() {
                assert_eq!(view.commit(bytes), result);
                let read = CompactRef::new(&schema, bytes).unwrap();
                assert_eq!(&read.header()[..elem_size], &values[0][..]);
                assert_eq!(read.count(0), next_first.len() as u64);
                assert_eq!(read.field(0), Some(&first_bytes[..]));
                assert_eq!(read.field(1), maybe_bytes.as_deref());
                assert_eq!(read.count(2), next_last.len() as u64);
                assert_eq!(read.field(2), Some(&last_bytes[..]));
                assert_eq!(read.text(3), next_text);
            }
            assert_commit(result, bytes, &before[1..1 + capacity], &expected);
            assert_eq!(storage[0], 0xa5);
            assert_eq!(storage[capacity + 1], 0xa5);
        }
    }
}

#[test]
fn contract_abandoned_edits() {
    let schema = record_schema();
    let bytes = record_bytes("a", &[7], Some("ok"));
    let before = bytes.clone();
    {
        let mut view = CompactMut::new(&schema, &bytes).unwrap();
        view.set_str(0, "abcd").unwrap();
        assert!(view.set_opt_str(2, Some("too long")).is_err());
    }
    assert_eq!(bytes, before);
}

#[test]
fn contract_header_transitions() {
    let schema = record_schema();
    let header_size = schema.header_size();
    for initial in [
        record_bytes("", &[], None),
        record_bytes("abcd", &[7, 8], Some("ok")),
    ] {
        for replacement in [
            record_bytes("", &[], None),
            record_bytes("é", &[513], Some("a")),
        ] {
            for edit in [false, true] {
                let head = header(&schema, &replacement).unwrap().to_vec();
                let mut bytes = initial.clone();
                let mut view = CompactMut::new(&schema, &bytes).unwrap();
                bytes[..header_size].copy_from_slice(&head);
                if edit {
                    view.set_str(0, "").unwrap();
                }
                let mut expected = initial.clone();
                expected[..header_size].copy_from_slice(&replacement[..header_size]);
                let validity = validate(&schema, &expected);
                let result = view.commit(&mut bytes);
                assert_eq!(result.is_ok(), validity.is_ok());
                if let Err(error) = validity {
                    assert_eq!(result, Err(error));
                }
            }
        }
    }
}

/// `#[repr(u16)] enum Message { Empty = 0, Text(String<4>) = 1,
/// Values(Vec<u16, 2>) = 256, Nested(Record) = 257 }`.
fn message_schema() -> CompactEnum {
    let text = CompactSchema::new(vec![], vec![string(4, 1, false)]).unwrap();
    let values = CompactSchema::new(vec![], vec![vector(2, 2, 2, false)]).unwrap();
    CompactEnum::new(
        2,
        vec![
            EnumVariant { disc: 0, payload: None },
            EnumVariant { disc: 1, payload: Some(text) },
            EnumVariant { disc: 256, payload: Some(values) },
            EnumVariant { disc: 257, payload: Some(record_schema()) },
        ],
    )
    .unwrap()
}

#[test]
fn contract_enum_edits() {
    let message = message_schema();
    let nested = record_bytes("é", &[7], None);
    let expected = [
        vec![0, 0],
        vec![1, 0, 2, b'o', b'k'],
        vec![0, 1, 1, 0, 7, 0],
        [vec![1, 1], nested.clone()].concat(),
    ];
    let text = [2, b'o', b'k'];
    let values = [1, 0, 7, 0];
    for initial in &expected {
        for (variant, next) in expected.iter().enumerate() {
            for capacity in [initial.len(), 32] {
                let mut bytes = initial.clone();
                bytes.resize(capacity, 0xa5);
                let before = bytes.clone();
                let mut view = EnumMut::new(&message, &bytes).unwrap();
                match variant {
                    0 => view.set_variant(0, &[]).unwrap(),
                    1 => view.set_variant(1, &text).unwrap(),
                    2 => view.set_variant(2, &values).unwrap(),
                    _ => view.set_variant(3, &nested).unwrap(),
                }
                let result = view.commit(&mut bytes);
                assert_commit(result, &bytes, &before, next);
                if result.is_ok() {
                    let read = EnumRef::new(&message, &bytes).unwrap();
                    assert_eq!(read.variant(), variant);
                }
            }
        }
    }
}

#[test]
fn enum_payload_checked_when_staged() {
    let message = message_schema();
    let bytes = vec![0, 0];
    let mut view = EnumMut::new(&message, &bytes).unwrap();
    assert_eq!(view.set_variant(1, &[5, b'a']), Err(ZeroPodError::InvalidLength));
    assert_eq!(view.set_variant(1, &[2, 0xff, 0xfe]), Err(ZeroPodError::InvalidUtf8));
    assert_eq!(view.set_variant(3, &[2]), Err(ZeroPodError::BufferTooSmall));
}

#[test]
fn contract_wide_lengths() {
    let wide = CompactSchema::new(
        vec![],
        vec![string(4, 8, false), vector(2, 2, 8, false), vector(1, 2, 8, true)],
    )
    .unwrap();
    let values = CompactSchema::new(vec![], vec![vector(2, 2, 8, false)]).unwrap();
    let wide_enum = CompactEnum::new(
        8,
        vec![
            EnumVariant { disc: 0, payload: None },
            EnumVariant { disc: 1, payload: Some(values) },
        ],
    )
    .unwrap();
    for length in [
        0,
        1,
        2,
        3,
        4,
        5,
        u32::MAX as u64,
        1 << 32,
        1 << 63,
        u64::MAX,
    ] {
        let mut fixed = length.to_le_bytes().to_vec();
        fixed.extend([b'a'; 4]);
        assert_eq!(PodString::<4, 8>::validate(&fixed).is_ok(), length <= 4);
        assert_eq!(PodVec::<PodU16, 2, 8>::validate(&fixed).is_ok(), length <= 2);
        for (offset, capacity) in [(0, 4), (8, 2), (17, 2)] {
            let mut bytes = vec![0; 29];
            bytes[16] = u8::from(offset == 17);
            bytes[offset..offset + 8].copy_from_slice(&length.to_le_bytes());
            assert_eq!(validate(&wide, &bytes).is_ok(), length <= capacity);
            if let Ok(view) = CompactRef::new(&wide, &bytes) {
                black_box((view.text(0), view.field(1), view.field(2)));
            }
        }
        let mut bytes = 1u64.to_le_bytes().to_vec();
        bytes.extend(length.to_le_bytes());
        bytes.extend([0; 4]);
        assert_eq!(wide_enum.validate(&bytes).is_ok(), length <= 2);
    }
}

/// `first: PodVec<u8, 2, 1>`, `second: PodVec<u8, 2, 1>`.
fn pair_schema() -> CompactSchema {
    CompactSchema::new(vec![], vec![vector(1, 2, 1, false), vector(1, 2, 1, false)]).unwrap()
}

#[test]
fn compact_commit_preserves_unedited_tail() {
    let schema = pair_schema();
    for first_len in 0..=3u8 {
        for count in 0..=3u8 {
            for len in 0..=6usize {
                let mut bytes = [first_len, count, 0x11, 0x22, 0x33, 0x44];
                let before = bytes;
                let Ok(view) = CompactRef::new(&schema, &bytes[..len]) else {
                    continue;
                };
                let count = count as usize;
                assert_eq!(view.field(1).unwrap().len(), count);
                let second = view.field(1).unwrap().to_vec();
                for new_len in 0..=2usize {
                    let replacement = [0xaa, 0xbb];
                    let mut bytes = before;
                    let mut edit = CompactMut::new(&schema, &bytes[..len]).unwrap();
                    edit.set_vec(0, new_len as u64, &replacement[..new_len]).unwrap();
                    let result = edit.commit(&mut bytes[..len]);
                    if 2 + new_len + count <= len {
                        assert_eq!(result.unwrap(), 2 + new_len + count);
                        assert_eq!(bytes[0], new_len as u8);
                        assert_eq!(&bytes[2..2 + new_len], &replacement[..new_len]);
                        assert_eq!(&bytes[2 + new_len..2 + new_len + count], &second[..]);
                    } else {
                        assert_eq!(result, Err(ZeroPodError::BufferTooSmall));
                        assert_eq!(bytes, before);
                    }
                }
            }
        }
    }
}

#[test]
fn compact_length_bounds() {
    // `values: PodVec<PodU16, 2, 1>`.
    let schema = CompactSchema::new(vec![], vec![vector(2, 2, 1, false)]).unwrap();
    for count in 0..=u8::MAX {
        for len in 0..=5usize {
            let bytes = [count, 1, 2, 3, 4];
            let view = CompactRef::new(&schema, &bytes[..len]);
            assert_eq!(
                view.is_ok(),
                len >= 1 && count <= 2 && 1 + 2 * count as usize <= len
            );
            if let Ok(view) = view {
                for value in view.field(0).unwrap().chunks(2) {
                    black_box(u16::from_le_bytes([value[0], value[1]]));
                }
            }
        }
    }
}

#[test]
fn schema_errors_in_checking_order() {
    let schema = record_schema();
    // Too short for the header.
    assert_eq!(validate(&schema, &[1, 0, 0, 0]), Err(ZeroPodError::BufferTooSmall));
    // A boolean inline byte out of range.
    assert_eq!(validate(&schema, &[2, 0, 0, 0, 0]), Err(ZeroPodError::InvalidBool));
    // A length over the field's maximum.
    assert_eq!(validate(&schema, &[1, 5, 0, 0, 0]), Err(ZeroPodError::InvalidLength));
    // An optional field's tag other than 0 or 1.
    assert_eq!(validate(&schema, &[1, 0, 0, 0, 2]), Err(ZeroPodError::InvalidTag));
    // Payloads that run past the end.
    assert_eq!(validate(&schema, &[1, 2, 0, 0, 0, b'a']), Err(ZeroPodError::BufferTooSmall));
    // Text that is not UTF-8.
    assert_eq!(validate(&schema, &[1, 1, 0, 0, 0, 0xff]), Err(ZeroPodError::InvalidUtf8));
    assert_eq!(validate(&schema, &record_bytes("ok", &[3], Some("é"))), Ok(()));
}

#[test]
fn schema_refuses_bad_layouts() {
    assert!(CompactSchema::new(vec![], vec![string(4, 3, false)]).is_none());
    assert!(CompactSchema::new(vec![], vec![string(256, 1, false)]).is_none());
    assert!(CompactSchema::new(vec![], vec![string(255, 1, false)]).is_some());
    assert!(CompactEnum::new(3, vec![EnumVariant { disc: 0, payload: None }]).is_none());
    assert!(CompactEnum::new(1, vec![EnumVariant { disc: 256, payload: None }]).is_none());
    assert!(CompactEnum::new(
        1,
        vec![EnumVariant { disc: 4, payload: None }, EnumVariant { disc: 4, payload: None }],
    )
    .is_none());
}

#[test]
fn enum_unknown_discriminant_refused() {
    let message = message_schema();
    assert_eq!(message.validate(&[2, 0]), Err(ZeroPodError::InvalidDiscriminant));
    assert_eq!(message.validate(&[0]), Err(ZeroPodError::BufferTooSmall));
    assert!(EnumRef::new(&message, &[0, 0]).unwrap().payload().is_none());
}

#[test]
fn text_checked_before_vector_elements() {
    // `flags: Vec<bool>` then `text: String`: bad text is reported even
    // when a boolean element before it is bad too.
    let schema = CompactSchema::new(
        vec![],
        vec![
            TailField {
                kind: TailKind::Vec { elem_size: 1, rule: ByteRule::Bool },
                max: 2,
                pfx: 1,
                optional: false,
            },
            string(2, 1, false),
        ],
    )
    .unwrap();
    assert_eq!(validate(&schema, &[1, 1, 2, 0xff]), Err(ZeroPodError::InvalidUtf8));
    assert_eq!(validate(&schema, &[1, 1, 2, b'a']), Err(ZeroPodError::InvalidBool));
    assert_eq!(validate(&schema, &[1, 1, 1, b'a']), Ok(()));
}

#[test]
fn commit_leaves_bytes_past_the_image() {
    let schema = record_schema();
    let initial = record_bytes("abcd", &[7, 8], Some("ok"));
    let mut bytes = initial.clone();
    bytes.extend([0xee; 6]);
    let before = bytes.clone();
    // Nothing staged: the whole buffer stays.
    let mut view = CompactMut::new(&schema, &bytes).unwrap();
    assert_eq!(view.commit(&mut bytes), Ok(initial.len()));
    assert_eq!(bytes, before);
    // A shrinking edit: the bytes past the new image keep their old values.
    view.set_str(0, "a").unwrap();
    let n = view.commit(&mut bytes).unwrap();
    assert_eq!(n, record_bytes("a", &[7, 8], Some("ok")).len());
    assert_eq!(&bytes[n..], &before[n..]);
    // A second commit changes nothing.
    let after = bytes.clone();
    assert_eq!(view.commit(&mut bytes), Ok(n));
    assert_eq!(bytes, after);
}

#[test]
fn inline_rules_for_options_enums_and_text() {
    // `maybe: Option<u16>`, `state: enum { A, B, C }`, `label: PodString<4, 1>`.
    let schema = CompactSchema::new(
        vec![
            InlineField { size: 3, rule: ByteRule::Tag { size: 3 } },
            InlineField { size: 1, rule: ByteRule::Disc { size: 1, width: 1, count: 3 } },
            InlineField { size: 5, rule: ByteRule::Text { size: 5, pfx: 1, max: 4 } },
        ],
        vec![],
    )
    .unwrap();
    assert_eq!(validate(&schema, &[1, 7, 0, 2, 2, b'o', b'k', 0, 0]), Ok(()));
    assert_eq!(validate(&schema, &[0, 9, 9, 0, 0, 0xff, 0xff, 0xff, 0xff]), Ok(()));
    assert_eq!(
        validate(&schema, &[2, 0, 0, 0, 0, 0, 0, 0, 0]),
        Err(ZeroPodError::InvalidTag)
    );
    assert_eq!(
        validate(&schema, &[0, 0, 0, 3, 0, 0, 0, 0, 0]),
        Err(ZeroPodError::InvalidDiscriminant)
    );
    assert_eq!(
        validate(&schema, &[0, 0, 0, 0, 5, 0, 0, 0, 0]),
        Err(ZeroPodError::InvalidLength)
    );
    assert_eq!(
        validate(&schema, &[0, 0, 0, 0, 2, 0xff, 0xfe, 0, 0]),
        Err(ZeroPodError::InvalidUtf8)
    );
    // The first failing inline field decides.
    assert_eq!(
        validate(&schema, &[2, 0, 0, 3, 0, 0, 0, 0, 0]),
        Err(ZeroPodError::InvalidTag)
    );
}

#[test]
fn vector_of_text_elements() {
    // `names: PodVec<PodString<2, 1>, 1, 2>`.
    let schema = CompactSchema::new(
        vec![],
        vec![TailField {
            kind: TailKind::Vec { elem_size: 3, rule: ByteRule::Text { size: 3, pfx: 1, max: 2 } },
            max: 1,
            pfx: 2,
            optional: false,
        }],
    )
    .unwrap();
    assert_eq!(validate(&schema, &[1, 0, 2, b'o', b'k']), Ok(()));
    assert_eq!(validate(&schema, &[1, 0, 1, b'o', 0xff]), Ok(()));
    assert_eq!(validate(&schema, &[1, 0, 3, b'o', b'k']), Err(ZeroPodError::InvalidLength));
    assert_eq!(validate(&schema, &[1, 0, 2, 0xff, 0xff]), Err(ZeroPodError::InvalidUtf8));
    assert_eq!(validate(&schema, &[0, 0]), Ok(()));
    let view = CompactRef::new(&schema, &[1, 0, 2, b'o', b'k']).unwrap();
    assert_eq!(view.field(0), Some(&[2, b'o', b'k'][..]));
}

#[test]
fn rules_must_fit_their_units() {
    assert!(CompactSchema::new(
        vec![InlineField { size: 2, rule: ByteRule::Tag { size: 3 } }],
        vec![],
    )
    .is_none());
    assert!(CompactSchema::new(
        vec![InlineField { size: 4, rule: ByteRule::Text { size: 4, pfx: 1, max: 4 } }],
        vec![],
    )
    .is_none());
    assert!(CompactSchema::new(
        vec![InlineField { size: 2, rule: ByteRule::Disc { size: 2, width: 4, count: 1 } }],
        vec![],
    )
    .is_none());
    assert!(CompactSchema::new(
        vec![],
        vec![TailField {
            kind: TailKind::Vec { elem_size: 2, rule: ByteRule::Tag { size: 3 } },
            max: 1,
            pfx: 1,
            optional: false,
        }],
    )
    .is_none());
    assert!(CompactSchema::new(
        vec![InlineField { size: 0, rule: ByteRule::Tag { size: 0 } }],
        vec![],
    )
    .is_none());
}

#[test]
fn vector_elements_checked_unit_by_unit() {
    // `flags: PodVec<PodOption<u8>, 2, 1>`.
    let schema = CompactSchema::new(
        vec![],
        vec![TailField {
            kind: TailKind::Vec { elem_size: 2, rule: ByteRule::Tag { size: 2 } },
            max: 2,
            pfx: 1,
            optional: false,
        }],
    )
    .unwrap();
    assert_eq!(validate(&schema, &[2, 1, 200, 0, 200]), Ok(()));
    assert_eq!(validate(&schema, &[2, 1, 200, 2, 0]), Err(ZeroPodError::InvalidTag));
    // Only the first byte of each element is a tag.
    assert_eq!(validate(&schema, &[1, 0, 5]), Ok(()));
}
