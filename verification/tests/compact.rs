use std::hint::black_box;
use zeropod::compact::edit::CompactMut;
use zeropod::compact::enums::{CompactEnum, EnumMut, EnumRef, EnumVariant};
use zeropod::compact::model::{ByteRule, InlineField, TailField, TailKind};
use zeropod::compact::schema::CompactSchema;
use zeropod::compact::view::{header, validate, CompactRef};
use zeropod::ZeroPodError;

// Every truncation, boundary-byte substitution, and a bounded multi-byte corpus.
fn corpus(seed: &[u8], mut check: impl FnMut(&mut [u8])) {
    let mut cases = vec![seed.to_vec()];
    for len in 0..seed.len() {
        cases.push(seed[..len].to_vec());
    }
    for index in 0..seed.len() {
        for byte in [0, 1, 2, 0x7f, 0x80, 0xff] {
            let mut bytes = seed.to_vec();
            bytes[index] = byte;
            cases.push(bytes);
        }
    }
    let mut state = 0x6a09e667f3bcc909u64;
    for len in 0..=seed.len() + 1 {
        cases.push(
            (0..len)
                .map(|_| {
                    state ^= state << 13;
                    state ^= state >> 7;
                    state ^= state << 17;
                    state as u8
                })
                .collect(),
        );
    }
    for (case, bytes) in cases.iter().enumerate() {
        for offset in [0, 1, 7] {
            let mut storage = vec![0xa5; offset + bytes.len() + 1];
            storage[offset..offset + bytes.len()].copy_from_slice(bytes);
            println!("case={case} offset={offset} bytes={bytes:02x?}");
            check(&mut storage[offset..offset + bytes.len()]);
            assert!(storage[..offset].iter().all(|&b| b == 0xa5));
            assert_eq!(storage[offset + bytes.len()], 0xa5);
        }
    }
}

fn string(max: u64, pfx: usize, optional: bool) -> TailField {
    TailField { kind: TailKind::Str, max, pfx, optional }
}

fn vector(elem_size: usize, rule: ByteRule, max: u64, pfx: usize, optional: bool) -> TailField {
    TailField { kind: TailKind::Vec { elem_size, rule }, max, pfx, optional }
}

/// `active: bool`, `name: String<4>`, `values: Vec<u16, 2>`, `note: Option<String<4>>`.
fn record_schema() -> CompactSchema {
    CompactSchema::new(
        vec![InlineField { size: 1, rule: ByteRule::Bool }],
        vec![
            string(4, 1, false),
            vector(2, ByteRule::Any, 2, 2, false),
            string(4, 1, true),
        ],
    )
    .unwrap()
}

/// `first: PodVec<u8, 2, 1>`, `second: PodVec<u8, 2, 1>`.
fn pair_schema() -> CompactSchema {
    CompactSchema::new(
        vec![],
        vec![
            vector(1, ByteRule::Any, 2, 1, false),
            vector(1, ByteRule::Any, 2, 1, false),
        ],
    )
    .unwrap()
}

fn check_pair(bytes: &mut [u8]) {
    let schema = pair_schema();
    let bytes: &[u8] = bytes;
    let valid = bytes.len() >= 2
        && bytes[0] <= 2
        && bytes[1] <= 2
        && 2 + bytes[0] as usize + bytes[1] as usize <= bytes.len();
    let view = CompactRef::new(&schema, bytes);
    assert_eq!(view.is_ok(), valid);
    if let Ok(view) = view {
        let split = 2 + bytes[0] as usize;
        assert_eq!(view.field(0).unwrap(), &bytes[2..split]);
        assert_eq!(view.field(1).unwrap(), &bytes[split..split + bytes[1] as usize]);
    }
}

fn record_bytes(name: &str, values: &[u16], note: Option<&str>) -> Vec<u8> {
    let mut bytes = vec![
        1,
        name.len() as u8,
        values.len() as u8,
        0,
        u8::from(note.is_some()),
    ];
    bytes.extend(name.as_bytes());
    for value in values {
        bytes.extend(value.to_le_bytes());
    }
    if let Some(note) = note {
        bytes.push(note.len() as u8);
        bytes.extend(note.as_bytes());
    }
    bytes
}

fn check_compact(bytes: &mut [u8]) {
    let schema = record_schema();
    let valid = validate(&schema, bytes).is_ok();
    assert_eq!(CompactRef::new(&schema, bytes).is_ok(), valid);
    if let Ok(view) = CompactRef::new(&schema, bytes) {
        black_box(view.header()[0]);
        black_box(view.text(0).unwrap().chars().last());
        for value in view.field(1).unwrap().chunks(2) {
            black_box(u16::from_le_bytes([value[0], value[1]]));
        }
        if let Some(note) = view.text(2) {
            black_box(note.chars().last());
        }
    }
    assert_eq!(header(&schema, bytes).is_ok(), valid);
    assert_eq!(CompactMut::new(&schema, bytes).is_ok(), valid);
    if valid {
        let before = bytes.to_vec();
        let len = CompactMut::new(&schema, bytes).unwrap().commit(bytes).unwrap();
        assert!(CompactRef::new(&schema, &bytes[..len]).is_ok());
        assert_eq!(bytes, before);
    }
}

#[test]
fn contract_compact_bytes() {
    corpus(&record_bytes("é", &[1, 513], Some("ok")), check_compact);
    corpus(&[2, 1, 7, 8, 9], check_pair);
}

#[test]
fn contract_commit_retry() {
    let schema = pair_schema();
    let mut bytes = [2, 0, 7, 8];
    let mut view = CompactMut::new(&schema, &bytes).unwrap();
    view.set_vec(1, 2, &[9, 10]).unwrap();
    assert_eq!(view.set_vec(1, 3, &[1, 2, 3]), Err(ZeroPodError::Overflow));
    assert_eq!(view.commit(&mut bytes), Err(ZeroPodError::BufferTooSmall));
    view.set_vec(0, 0, &[]).unwrap();
    assert_eq!(view.commit(&mut bytes), Ok(4));
    assert_eq!(view.commit(&mut bytes), Ok(4));
    assert_eq!(bytes, [0, 2, 9, 10]);
}

/// `#[repr(u16)] enum Message { Empty = 0, Text(String<4>) = 1,
/// Values(Vec<u16, 2>) = 256, Nested(Record) = 257 }`.
fn message_schema() -> CompactEnum {
    let text = CompactSchema::new(vec![], vec![string(4, 1, false)]).unwrap();
    let values = CompactSchema::new(vec![], vec![vector(2, ByteRule::Any, 2, 2, false)]).unwrap();
    CompactEnum::new(
        2,
        vec![
            EnumVariant { disc: 0, payload: None },
            EnumVariant { disc: 1, payload: Some(text) },
            EnumVariant { disc: 256, payload: Some(values) },
            EnumVariant { disc: 257, payload: Some(record_schema()) },
        ],
    )
    .unwrap()
}

fn check_enum(bytes: &mut [u8]) {
    let message = message_schema();
    match EnumRef::new(&message, bytes) {
        Ok(value) => {
            assert!(message.validate(bytes).is_ok());
            match value.variant() {
                0 => assert!(value.payload().is_none()),
                1 => {
                    black_box(value.payload().unwrap().text(0).unwrap().chars().last());
                }
                2 => {
                    for n in value.payload().unwrap().field(0).unwrap().chunks(2) {
                        black_box(u16::from_le_bytes([n[0], n[1]]));
                    }
                }
                _ => {
                    let r = value.payload().unwrap();
                    black_box(r.text(0).unwrap().chars().last());
                    for n in r.field(1).unwrap().chunks(2) {
                        black_box(u16::from_le_bytes([n[0], n[1]]));
                    }
                    if let Some(s) = r.text(2) {
                        black_box(s.chars().last());
                    }
                }
            }
            assert!(EnumMut::new(&message, bytes).unwrap().commit(bytes).is_ok());
        }
        Err(error) => assert_eq!(message.validate(bytes), Err(error)),
    }
}

#[test]
fn contract_enum_bytes() {
    for bytes in [
        vec![0, 0],
        vec![1, 0, 2, b'o', b'k'],
        vec![0, 1, 1, 0, 7, 0],
        [vec![1, 1], record_bytes("a", &[7], None)].concat(),
    ] {
        corpus(&bytes, check_enum);
    }
}
