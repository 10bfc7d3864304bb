//! The byte layout of a compact record, stated over sequences.
//!
//! A compact image is a fixed header followed by a packed tail:
//!
//! * the header holds the inline fields in order, then one slot per tail
//!   field: a little-endian length prefix of `pfx` bytes for a required field,
//!   a presence tag byte for an optional one;
//! * the tail holds, in order, the bytes of each tail field; an optional field
//!   that is present carries its own length prefix in front of its bytes.
use vstd::prelude::*;
use vstd::utf8::valid_utf8;
use crate::error::ZeroPodError;
use crate::pod::prefix::{le_value, le_bytes, pow256, valid_pfx};

verus! {

/// What a run of bytes must hold to be valid. The last three rules cut the
/// run into units of `size` bytes (one inline field, or one vector element)
/// and check each unit in turn.
#[derive(Clone, Copy, Debug, PartialEq, Eq, Structural)]
pub enum ByteRule {
    /// Every byte value is valid.
    Any,
    /// Every byte is a boolean: 0 or 1.
    Bool,
    /// An optional value: the first byte of each unit is a tag, 0 or 1; the
    /// payload after it accepts any bytes.
    Tag { size: usize },
    /// A unit-only enum: each unit starts with a `width`-byte little-endian
    /// discriminant below `count`.
    Disc { size: usize, width: usize, count: u64 },
    /// Fixed-capacity text: each unit holds a `pfx`-byte little-endian
    /// length of at most `max`, then that many bytes of UTF-8 (the rest of
    /// the unit is spare capacity).
    Text { size: usize, pfx: usize, max: u64 },
}

/// A fixed-size field kept in the header.
#[derive(Clone, Copy, Debug, PartialEq, Eq, Structural)]
pub struct InlineField {
    pub size: usize,
    pub rule: ByteRule,
}

/// The contents of a variable-length field.
#[derive(Clone, Copy, Debug, PartialEq, Eq, Structural)]
pub enum TailKind {
    /// UTF-8 text; its length counts bytes.
    Str,
    /// A sequence of elements of `elem_size` bytes each; its length counts elements.
    Vec { elem_size: usize, rule: ByteRule },
}

/// A variable-length field kept in the tail.
#[derive(Clone, Copy, Debug, PartialEq, Eq, Structural)]
pub struct TailField {
    pub kind: TailKind,
    /// The largest length the field accepts.
    pub max: u64,
    /// The width in bytes of the field's length prefix.
    pub pfx: usize,
    /// Whether the field may be absent.
    pub optional: bool,
}

/// A schema seen as sequences of field descriptions.
pub struct SchemaView {
    pub inline: Seq<InlineField>,
    pub tails: Seq<TailField>,
}

/// The logical value of one tail field.
pub struct FieldModel {
    pub present: bool,
    /// The length that the prefix records (bytes for text, elements for vectors).
    pub count: nat,
    /// The field's payload bytes.
    pub bytes: Seq<u8>,
}

/// The bytes per unit of a rule that checks units; zero for the others.
pub open spec fn rule_size(rule: ByteRule) -> nat {
    match rule {
        ByteRule::Tag { size } => size as nat,
        ByteRule::Disc { size, .. } => size as nat,
        ByteRule::Text { size, .. } => size as nat,
        _ => 0,
    }
}

/// Why one unit `u` breaks `rule`, if it does.
pub open spec fn unit_err(rule: ByteRule, u: Seq<u8>) -> Option<ZeroPodError> {
    match rule {
        ByteRule::Tag { .. } => if u[0] > 1 {
            Some(ZeroPodError::InvalidTag)
        } else {
            None
        },
        ByteRule::Disc { width, count, .. } => if le_value(u.subrange(0, width as int))
            >= count {
            Some(ZeroPodError::InvalidDiscriminant)
        } else {
            None
        },
        ByteRule::Text { pfx, max, .. } => {
            let n = le_value(u.subrange(0, pfx as int));
            if n > max {
                Some(ZeroPodError::InvalidLength)
            } else if !valid_utf8(u.subrange(pfx as int, pfx + n)) {
                Some(ZeroPodError::InvalidUtf8)
            } else {
                None
            }
        },
        _ => None,
    }
}

/// Unit `j` of `bytes` under a rule with units of `size` bytes.
pub open spec fn unit_at(bytes: Seq<u8>, size: nat, j: int) -> Seq<u8> {
    bytes.subrange(j * size, (j + 1) * size)
}

pub open spec fn unit_errs(rule: ByteRule, bytes: Seq<u8>) -> spec_fn(int) -> Option<ZeroPodError> {
    |j: int| unit_err(rule, unit_at(bytes, rule_size(rule), j))
}

/// Why `bytes` break `rule`, if they do: the first failing byte or unit.
pub open spec fn rule_err(rule: ByteRule, bytes: Seq<u8>) -> Option<ZeroPodError> {
    match rule {
        ByteRule::Any => None,
        ByteRule::Bool => if forall|k: int| 0 <= k < bytes.len() ==> #[trigger] bytes[k] <= 1 {
            None
        } else {
            Some(ZeroPodError::InvalidBool)
        },
        _ => if rule_size(rule) == 0 {
            None
        } else {
            first_err(unit_errs(rule, bytes), 0, (bytes.len() / rule_size(rule)) as int)
        },
    }
}

pub open spec fn rule_ok(rule: ByteRule, bytes: Seq<u8>) -> bool {
    rule_err(rule, bytes) is None
}

/// The element rule of a vector field fits its elements.
pub open spec fn tail_rule_ok(t: TailField) -> bool {
    match t.kind {
        TailKind::Vec { elem_size, rule } => rule_fits(rule, elem_size as nat),
        TailKind::Str => true,
    }
}

/// A rule that fits units of `n` bytes.
pub open spec fn rule_fits(rule: ByteRule, n: nat) -> bool {
    match rule {
        ByteRule::Tag { size } => size == n && n >= 1,
        ByteRule::Disc { size, width, .. } => size == n && valid_pfx(width) && width <= n,
        ByteRule::Text { size, pfx, max } => size == n && valid_pfx(pfx) && (max as nat)
            < pow256(pfx as nat) && pfx + max <= n,
        _ => true,
    }
}

/// Bytes per unit of length: one for text, the element size for vectors.
pub open spec fn unit(t: TailField) -> nat {
    match t.kind {
        TailKind::Str => 1,
        TailKind::Vec { elem_size, .. } => elem_size as nat,
    }
}

/// The width of a tail field's header slot.
pub open spec fn slot_width(t: TailField) -> nat {
    if t.optional {
        1
    } else {
        t.pfx as nat
    }
}

/// Offset of inline field `i` in the header.
pub open spec fn inline_off(inl: Seq<InlineField>, i: int) -> nat
    decreases i,
{
    if i <= 0 {
        0
    } else {
        inline_off(inl, i - 1) + inl[i - 1].size as nat
    }
}

impl SchemaView {
    pub open spec fn inline_size(self) -> nat {
        inline_off(self.inline, self.inline.len() as int)
    }

    /// Offset of the header slot of tail field `i`.
    pub open spec fn slot_off(self, i: int) -> nat
        decreases i,
    {
        if i <= 0 {
            self.inline_size()
        } else {
            self.slot_off(i - 1) + slot_width(self.tails[i - 1])
        }
    }

    pub open spec fn header_size(self) -> nat {
        self.slot_off(self.tails.len() as int)
    }

    /// The schema is one the layout can hold: prefix widths of 1, 2, 4 or 8
    /// bytes that can record every accepted length, and a header that fits
    /// in memory.
    pub open spec fn wf(self) -> bool {
        &&& forall|i: int|
            0 <= i < self.tails.len() ==> valid_pfx(#[trigger] self.tails[i].pfx)
                && (self.tails[i].max as nat) < pow256(self.tails[i].pfx as nat)
        &&& forall|i: int|
            0 <= i < self.inline.len() ==> rule_fits(
                #[trigger] self.inline[i].rule,
                self.inline[i].size as nat,
            )
        &&& forall|i: int| 0 <= i < self.tails.len() ==> tail_rule_ok(#[trigger] self.tails[i])
        &&& self.header_size() <= usize::MAX
    }

    // ----- reading an image -----
    pub open spec fn inline_bytes(self, d: Seq<u8>, i: int) -> Seq<u8> {
        d.subrange(inline_off(self.inline, i) as int, inline_off(self.inline, i + 1) as int)
    }

    pub open spec fn inline_err_at(self, d: Seq<u8>, i: int) -> Option<ZeroPodError> {
        rule_err(self.inline[i].rule, self.inline_bytes(d, i))
    }

    pub open spec fn slot_bytes(self, d: Seq<u8>, i: int) -> Seq<u8> {
        d.subrange(self.slot_off(i) as int, (self.slot_off(i) + slot_width(self.tails[i])) as int)
    }

    pub open spec fn slot_value(self, d: Seq<u8>, i: int) -> nat {
        le_value(self.slot_bytes(d, i))
    }

    pub open spec fn slot_err_at(self, d: Seq<u8>, i: int) -> Option<ZeroPodError> {
        let t = self.tails[i];
        if t.optional {
            if self.slot_value(d, i) > 1 {
                Some(ZeroPodError::InvalidTag)
            } else {
                None
            }
        } else if self.slot_value(d, i) > t.max {
            Some(ZeroPodError::InvalidLength)
        } else {
            None
        }
    }

    pub open spec fn present(self, d: Seq<u8>, i: int) -> bool {
        !self.tails[i].optional || self.slot_value(d, i) == 1
    }

    /// Width of the in-tail prefix of field `i`: present optional fields only.
    pub open spec fn inner_pfx(self, d: Seq<u8>, i: int) -> nat {
        if self.tails[i].optional && self.present(d, i) {
            self.tails[i].pfx as nat
        } else {
            0
        }
    }

    /// The length of field `i` when its tail part starts at `c`.
    pub open spec fn count_at(self, d: Seq<u8>, i: int, c: int) -> nat {
        let t = self.tails[i];
        if t.optional {
            if self.present(d, i) {
                le_value(d.subrange(c, c + t.pfx))
            } else {
                0
            }
        } else {
            self.slot_value(d, i)
        }
    }

    pub open spec fn span_at(self, d: Seq<u8>, i: int, c: int) -> nat {
        self.inner_pfx(d, i) + self.count_at(d, i, c) * unit(self.tails[i])
    }

    /// Where the tail part of field `i` starts.
    pub open spec fn cursor(self, d: Seq<u8>, i: int) -> int
        decreases i,
    {
        if i <= 0 {
            self.header_size() as int
        } else {
            let c = self.cursor(d, i - 1);
            c + self.span_at(d, i - 1, c)
        }
    }

    pub open spec fn count(self, d: Seq<u8>, i: int) -> nat {
        self.count_at(d, i, self.cursor(d, i))
    }

    pub open spec fn payload_start(self, d: Seq<u8>, i: int) -> int {
        self.cursor(d, i) + self.inner_pfx(d, i)
    }

    pub open spec fn payload_len(self, d: Seq<u8>, i: int) -> nat {
        self.count(d, i) * unit(self.tails[i])
    }

    pub open spec fn payload(self, d: Seq<u8>, i: int) -> Seq<u8> {
        d.subrange(self.payload_start(d, i), self.payload_start(d, i) + self.payload_len(d, i))
    }

    pub open spec fn walk_err_at(self, d: Seq<u8>, i: int) -> Option<ZeroPodError> {
        let t = self.tails[i];
        let c = self.cursor(d, i);
        if self.inner_pfx(d, i) > 0 && c + t.pfx > d.len() {
            Some(ZeroPodError::BufferTooSmall)
        } else if t.optional && self.count(d, i) > t.max {
            Some(ZeroPodError::InvalidLength)
        } else if self.payload_start(d, i) + self.payload_len(d, i) > d.len() {
            Some(ZeroPodError::BufferTooSmall)
        } else {
            None
        }
    }

    /// The UTF-8 check of text field `i`; other fields pass it.
    pub open spec fn text_err_at(self, d: Seq<u8>, i: int) -> Option<ZeroPodError> {
        if self.tails[i].kind is Str && !valid_utf8(self.payload(d, i)) {
            Some(ZeroPodError::InvalidUtf8)
        } else {
            None
        }
    }

    /// The element check of vector field `i`; other fields pass it.
    pub open spec fn elem_err_at(self, d: Seq<u8>, i: int) -> Option<ZeroPodError> {
        match self.tails[i].kind {
            TailKind::Str => None,
            TailKind::Vec { rule, .. } => rule_err(rule, self.payload(d, i)),
        }
    }

    /// The contents check of field `i`, text or elements.
    pub open spec fn content_err_at(self, d: Seq<u8>, i: int) -> Option<ZeroPodError> {
        match self.tails[i].kind {
            TailKind::Str => if valid_utf8(self.payload(d, i)) {
                None
            } else {
                Some(ZeroPodError::InvalidUtf8)
            },
            TailKind::Vec { rule, .. } => rule_err(rule, self.payload(d, i)),
        }
    }

    pub open spec fn inline_errs(self, d: Seq<u8>) -> spec_fn(int) -> Option<ZeroPodError> {
        |i: int| self.inline_err_at(d, i)
    }

    pub open spec fn slot_errs(self, d: Seq<u8>) -> spec_fn(int) -> Option<ZeroPodError> {
        |i: int| self.slot_err_at(d, i)
    }

    pub open spec fn walk_errs(self, d: Seq<u8>) -> spec_fn(int) -> Option<ZeroPodError> {
        |i: int| self.walk_err_at(d, i)
    }

    pub open spec fn text_errs(self, d: Seq<u8>) -> spec_fn(int) -> Option<ZeroPodError> {
        |i: int| self.text_err_at(d, i)
    }

    pub open spec fn elem_errs(self, d: Seq<u8>) -> spec_fn(int) -> Option<ZeroPodError> {
        |i: int| self.elem_err_at(d, i)
    }

    /// The verdict on an image: the first failing check, in this order: the
    /// buffer holds the header; the inline fields; the header slots (tags,
    /// then lengths against capacity); the tail fields fit the buffer; the
    /// text of every text field is UTF-8; then the elements of every vector
    /// field are valid.
    pub open spec fn validate(self, d: Seq<u8>) -> Result<(), ZeroPodError> {
        let ni = self.inline.len() as int;
        let nt = self.tails.len() as int;
        if d.len() < self.header_size() {
            Err(ZeroPodError::BufferTooSmall)
        } else if let Some(e) = first_err(self.inline_errs(d), 0, ni) {
            Err(e)
        } else if let Some(e) = first_err(self.slot_errs(d), 0, nt) {
            Err(e)
        } else if let Some(e) = first_err(self.walk_errs(d), 0, nt) {
            Err(e)
        } else if let Some(e) = first_err(self.text_errs(d), 0, nt) {
            Err(e)
        } else if let Some(e) = first_err(self.elem_errs(d), 0, nt) {
            Err(e)
        } else {
            Ok(())
        }
    }

    /// The number of bytes a valid image occupies.
    pub open spec fn total(self, d: Seq<u8>) -> nat {
        self.cursor(d, self.tails.len() as int) as nat
    }

    pub open spec fn field(self, d: Seq<u8>, i: int) -> FieldModel {
        FieldModel {
            present: self.present(d, i),
            count: self.count(d, i),
            bytes: self.payload(d, i),
        }
    }

    pub open spec fn fields(self, d: Seq<u8>) -> Seq<FieldModel> {
        Seq::new(self.tails.len(), |i: int| self.field(d, i))
    }

    /// The inline part of the header.
    pub open spec fn inline_part(self, d: Seq<u8>) -> Seq<u8> {
        d.subrange(0, self.inline_size() as int)
    }

    // ----- writing an image -----
    /// The header slot that records `f`.
    pub open spec fn slot_piece(self, i: int, f: FieldModel) -> Seq<u8> {
        let t = self.tails[i];
        if t.optional {
            seq![if f.present { 1u8 } else { 0u8 }]
        } else {
            le_bytes(f.count, t.pfx as nat)
        }
    }

    /// The tail bytes that hold `f`.
    pub open spec fn tail_piece(self, i: int, f: FieldModel) -> Seq<u8> {
        let t = self.tails[i];
        if t.optional {
            if f.present {
                le_bytes(f.count, t.pfx as nat) + f.bytes
            } else {
                Seq::empty()
            }
        } else {
            f.bytes
        }
    }

    pub open spec fn slot_pieces(self, fs: Seq<FieldModel>) -> Seq<Seq<u8>> {
        Seq::new(self.tails.len(), |i: int| self.slot_piece(i, fs[i]))
    }

    pub open spec fn tail_pieces(self, fs: Seq<FieldModel>) -> Seq<Seq<u8>> {
        Seq::new(self.tails.len(), |i: int| self.tail_piece(i, fs[i]))
    }

    /// The image of a record: inline bytes, header slots, then the tail.
    pub open spec fn encode(self, inline: Seq<u8>, fs: Seq<FieldModel>) -> Seq<u8> {
        inline + flat(self.slot_pieces(fs)) + flat(self.tail_pieces(fs))
    }

    /// A field value that field `i` can hold.
    pub open spec fn field_valid(self, i: int, f: FieldModel) -> bool {
        let t = self.tails[i];
        &&& !t.optional ==> f.present
        &&& !f.present ==> f.count == 0 && f.bytes.len() == 0
        &&& f.count <= t.max
        &&& f.bytes.len() == f.count * unit(t)
        &&& match t.kind {
            TailKind::Str => valid_utf8(f.bytes),
            TailKind::Vec { rule, .. } => rule_ok(rule, f.bytes),
        }
    }

    /// Inline bytes that the header can hold.
    pub open spec fn inline_valid(self, inline: Seq<u8>) -> bool {
        &&& inline.len() == self.inline_size()
        &&& forall|i: int|
            0 <= i < self.inline.len() ==> #[trigger] rule_ok(
                self.inline[i].rule,
                inline.subrange(
                    inline_off(self.inline, i) as int,
                    inline_off(self.inline, i + 1) as int,
                ),
            )
    }

    pub open spec fn value_valid(self, inline: Seq<u8>, fs: Seq<FieldModel>) -> bool {
        &&& self.inline_valid(inline)
        &&& fs.len() == self.tails.len()
        &&& forall|i: int| 0 <= i < fs.len() ==> #[trigger] self.field_valid(i, fs[i])
    }
}

/// The first error that `f` reports on `i..n`.
pub open spec fn first_err(f: spec_fn(int) -> Option<ZeroPodError>, i: int, n: int) -> Option<
    ZeroPodError,
>
    decreases n - i,
{
    if i >= n {
        None
    } else if f(i) is Some {
        f(i)
    } else {
        first_err(f, i + 1, n)
    }
}

/// The concatenation of `parts`.
pub open spec fn flat(parts: Seq<Seq<u8>>) -> Seq<u8>
    decreases parts.len(),
{
    if parts.len() == 0 {
        Seq::empty()
    } else {
        flat(parts.drop_last()) + parts.last()
    }
}

/// Where part `i` starts in `flat(parts)`.
pub open spec fn flat_off(parts: Seq<Seq<u8>>, i: int) -> nat {
    flat(parts.take(i)).len()
}

} // verus!
