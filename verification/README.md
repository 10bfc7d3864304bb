# zeropod

Fixed-size, byte-exact storage types and compact variable-length layouts for
account data, with their behaviour stated as Verus contracts and proved.

## Layout

- `src/pod/` — storage types (all `Copy`) and their byte images:
  - `option.rs`: `PodOption`, a tag byte (0 or 1) and a payload slot.
  - `string.rs`: `PodString<N, PFX>`, UTF-8 text of at most `N` bytes behind a
    `PFX`-byte little-endian length prefix, held in a fixed array.
  - `vec.rs`: `PodVec<T, N, PFX>`, at most `N` elements behind a length prefix,
    held in a fixed array.
  - `elem.rs`: the `ZcElem` element codec and its instances for `u8`,
    `PodBool` and `[u8; 0]`. `PodString`, `PodVec`, `PodOption` and the
    integers are elements too, so they nest in one another.
  - `number.rs`: little-endian integers `PodU16` to `PodU128` and `PodI16` to
    `PodI128`, with `+` and `-` (which must not overflow), checked and
    wrapping addition and subtraction.
  - `prefix.rs`: little-endian length prefixes of 1, 2, 4 or 8 bytes.
  - `text.rs`: UTF-8 checking of byte slices.
- `src/compact/` — compact layouts: a header of inline fields and length
  slots, followed by the tail payloads packed one after another.
  - `model.rs`: the mathematical model (`SchemaView`, `FieldModel`) with the
    checking order, the byte rules of inline fields and vector elements
    (booleans, option tags, enum discriminants, fixed-capacity text), the
    reading of fields and the encoding of a value.
  - `schema.rs`, `view.rs`: building a layout, checking an image, and read
    access to a checked image.
  - `edit.rs`, `commit.rs`, `bytes.rs`: staged replacements of tail fields
    and the in-place commit that moves, rewrites and re-prefixes the tails.
  - `enums.rs`: compact enums, a discriminant followed by a variant payload.
  - `laws.rs`: what holds across calls (an encoded value reads back, a
    checked image re-encodes to itself, a commit reads back as the staged
    edits).
- `src/view_state.rs`: a value carried with the schema type it was checked
  against.
- `tests/`: scenario tests over the public API.
