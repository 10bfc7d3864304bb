//! What the compact layout promises: an image reads back as the value it
//! was written from, and a valid image is the encoding of what it reads as.
use vstd::prelude::*;
use crate::pod::prefix::{le_bytes, le_value, lemma_le_bytes_len, lemma_le_roundtrip};
use super::model::{flat, flat_off, rule_ok, unit, FieldModel, SchemaView};
use super::lemmas::{
    holds, lemma_first_err_none, lemma_flat_full, lemma_flat_off_mono, lemma_flat_part,
    lemma_flat_take_step, lemma_flat_zero, lemma_header_len, lemma_holds_inner,
    lemma_inline_off_mono, lemma_parse_slots, lemma_parse_tails, lemma_slot_off_mono,
    lemma_slot_offsets, lemma_validate_ok,
};
use super::commit::lemma_slot_piece_len;
use super::edit::{apply_edits, committed};

verus! {

/// Where the parts of an encoded image sit.
proof fn lemma_encode_holds(sv: SchemaView, inline: Seq<u8>, fs: Seq<FieldModel>, rest: Seq<u8>)
    requires
        inline.len() == sv.inline_size(),
        fs.len() == sv.tails.len(),
    ensures
        sv.encode(inline, fs).len() == sv.header_size() + flat(sv.tail_pieces(fs)).len(),
        holds(sv.encode(inline, fs) + rest, 0, inline),
        forall|k: int|
            0 <= k < fs.len() ==> #[trigger] holds(
                sv.encode(inline, fs) + rest,
                sv.slot_off(k) as int,
                sv.slot_pieces(fs)[k],
            ),
        forall|k: int|
            0 <= k < fs.len() ==> #[trigger] holds(
                sv.encode(inline, fs) + rest,
                (sv.header_size() + flat_off(sv.tail_pieces(fs), k)) as int,
                sv.tail_pieces(fs)[k],
            ),
{
    let sp = sv.slot_pieces(fs);
    let tp = sv.tail_pieces(fs);
    let img = sv.encode(inline, fs);
    let d = img + rest;
    let is = inline.len() as int;
    lemma_header_len(sv, fs);
    let hs = sv.header_size() as int;
    assert(d.subrange(0, is) =~= inline);
    assert(d.subrange(is, hs) =~= flat(sp));
    assert(d.subrange(hs, hs + flat(tp).len()) =~= flat(tp));
    assert forall|k: int| 0 <= k < fs.len() implies #[trigger] holds(
        d,
        sv.slot_off(k) as int,
        sp[k],
    ) by {
        lemma_flat_part(sp, k);
        lemma_slot_offsets(sv, fs, k);
        lemma_holds_inner(d, is, flat(sp), flat_off(sp, k) as int, sp[k]);
    }
    assert forall|k: int| 0 <= k < fs.len() implies #[trigger] holds(
        d,
        hs + flat_off(tp, k),
        tp[k],
    ) by {
        lemma_flat_part(tp, k);
        lemma_holds_inner(d, hs, flat(tp), flat_off(tp, k) as int, tp[k]);
    }
}

/// The slot of a valid field records its presence or its length.
proof fn lemma_slot_value(sv: SchemaView, d: Seq<u8>, k: int, f: FieldModel)
    requires
        sv.wf(),
        0 <= k < sv.tails.len(),
        sv.field_valid(k, f),
        holds(d, sv.slot_off(k) as int, sv.slot_piece(k, f)),
    ensures
        sv.slot_value(d, k) == (if sv.tails[k].optional {
            if f.present {
                1nat
            } else {
                0nat
            }
        } else {
            f.count
        }),
{
    let t = sv.tails[k];
    lemma_slot_piece_len(sv, k, f);
    assert(sv.slot_bytes(d, k) == sv.slot_piece(k, f));
    if t.optional {
        let b: u8 = if f.present { 1 } else { 0 };
        assert(seq![b].drop_first() =~= Seq::<u8>::empty());
        reveal_with_fuel(le_value, 2);
        assert(le_value(seq![b]) == b as nat);
    } else {
        lemma_le_roundtrip(f.count, t.pfx as nat);
    }
}

/// Field by field, an encoded image reads back its fields.
proof fn lemma_parse_encode_upto(
    sv: SchemaView,
    inline: Seq<u8>,
    fs: Seq<FieldModel>,
    rest: Seq<u8>,
    n: int,
)
    requires
        sv.wf(),
        sv.value_valid(inline, fs),
        0 <= n <= sv.tails.len(),
    ensures
        sv.cursor(sv.encode(inline, fs) + rest, n) == sv.header_size() + flat_off(
            sv.tail_pieces(fs),
            n,
        ),
        forall|i: int|
            0 <= i < n ==> (#[trigger] sv.walk_err_at(sv.encode(inline, fs) + rest, i)) is None
                && sv.field(sv.encode(inline, fs) + rest, i) == fs[i],
    decreases n,
{
    let d = sv.encode(inline, fs) + rest;
    let tp = sv.tail_pieces(fs);
    let hs = sv.header_size() as int;
    lemma_encode_holds(sv, inline, fs, rest);
    if n == 0 {
        lemma_flat_zero(tp);
    } else {
        let i = n - 1;
        lemma_parse_encode_upto(sv, inline, fs, rest, i);
        lemma_flat_take_step(tp, i);
        lemma_flat_off_mono(tp, i + 1, sv.tails.len() as int);
        lemma_flat_full(tp);
        let t = sv.tails[i];
        let f = fs[i];
        let c = sv.cursor(d, i);
        assert(sv.field_valid(i, f));
        assert(holds(d, c, tp[i]));
        assert(holds(d, sv.slot_off(i) as int, sv.slot_pieces(fs)[i]));
        lemma_slot_value(sv, d, i, f);
        assert(sv.present(d, i) == f.present);
        if t.optional && f.present {
            lemma_le_bytes_len(f.count, t.pfx as nat);
            let lb = le_bytes(f.count, t.pfx as nat);
            assert(tp[i] == lb + f.bytes);
            assert(d.subrange(c, c + tp[i].len()) == lb + f.bytes);
            assert(d.subrange(c, c + t.pfx) =~= (lb + f.bytes).subrange(0, t.pfx as int));
            assert(d.subrange(c, c + t.pfx) =~= lb);
            lemma_le_roundtrip(f.count, t.pfx as nat);
            assert(d.subrange(c + t.pfx, c + t.pfx + f.bytes.len()) =~= (lb + f.bytes).subrange(
                t.pfx as int,
                t.pfx + f.bytes.len(),
            ));
            assert(d.subrange(c + t.pfx, c + t.pfx + f.bytes.len()) =~= f.bytes);
        } else {
            assert(d.subrange(c, c + f.bytes.len()) =~= f.bytes);
        }
        assert(sv.count(d, i) == f.count);
        assert(sv.payload(d, i) =~= f.bytes);
        assert(sv.field(d, i) == f);
    }
}

/// An image written from a valid value reads back as that value, whatever
/// bytes follow it.
pub proof fn law_encode_then_read(sv: SchemaView, inline: Seq<u8>, fs: Seq<FieldModel>, rest: Seq<u8>)
    requires
        sv.wf(),
        sv.value_valid(inline, fs),
    ensures
        sv.validate(sv.encode(inline, fs) + rest) is Ok,
        sv.inline_part(sv.encode(inline, fs) + rest) == inline,
        sv.fields(sv.encode(inline, fs) + rest) == fs,
        sv.total(sv.encode(inline, fs) + rest) == sv.encode(inline, fs).len(),
{
    let d = sv.encode(inline, fs) + rest;
    let nt = sv.tails.len() as int;
    let ni = sv.inline.len() as int;
    let tp = sv.tail_pieces(fs);
    lemma_encode_holds(sv, inline, fs, rest);
    lemma_parse_encode_upto(sv, inline, fs, rest, nt);
    lemma_flat_full(tp);
    lemma_slot_off_mono(sv, 0, nt);
    assert(d.subrange(0, inline.len() as int) == inline);
    assert forall|i: int| 0 <= i < ni implies (#[trigger] sv.inline_err_at(d, i)) is None by {
        lemma_inline_off_mono(sv.inline, i + 1, ni);
        assert(sv.inline_bytes(d, i) =~= inline.subrange(
            super::model::inline_off(sv.inline, i) as int,
            super::model::inline_off(sv.inline, i + 1) as int,
        ));
        assert(rule_ok(
            sv.inline[i].rule,
            inline.subrange(
                super::model::inline_off(sv.inline, i) as int,
                super::model::inline_off(sv.inline, i + 1) as int,
            ),
        ));
    }
    lemma_first_err_none(sv.inline_errs(d), 0, ni);
    assert forall|i: int| 0 <= i < nt implies (#[trigger] sv.slot_err_at(d, i)) is None by {
        assert(sv.field_valid(i, fs[i]));
        assert(holds(d, sv.slot_off(i) as int, sv.slot_pieces(fs)[i]));
        lemma_slot_value(sv, d, i, fs[i]);
    }
    lemma_first_err_none(sv.slot_errs(d), 0, nt);
    lemma_first_err_none(sv.walk_errs(d), 0, nt);
    assert forall|i: int| 0 <= i < nt implies (#[trigger] sv.content_err_at(d, i)) is None by {
        assert(sv.walk_err_at(d, i) is None);
        assert(sv.field(d, i) == fs[i]);
        assert(sv.field_valid(i, fs[i]));
    }
    assert forall|i: int| 0 <= i < nt implies (#[trigger] sv.text_err_at(d, i)) is None by {
        assert(sv.content_err_at(d, i) is None);
    }
    assert forall|i: int| 0 <= i < nt implies (#[trigger] sv.elem_err_at(d, i)) is None by {
        assert(sv.content_err_at(d, i) is None);
    }
    lemma_first_err_none(sv.text_errs(d), 0, nt);
    lemma_first_err_none(sv.elem_errs(d), 0, nt);
    assert forall|i: int| 0 <= i < nt implies #[trigger] sv.fields(d)[i] == fs[i] by {
        assert(sv.walk_err_at(d, i) is None);
    }
    assert(sv.fields(d) =~= fs);
}

/// The header slots of a valid image are the slot pieces of its fields.
proof fn lemma_read_slots(sv: SchemaView, d: Seq<u8>)
    requires
        sv.wf(),
        sv.validate(d) is Ok,
    ensures
        d.subrange(sv.inline_size() as int, sv.header_size() as int) == flat(
            sv.slot_pieces(sv.fields(d)),
        ),
{
    let nt = sv.tails.len() as int;
    let fs = sv.fields(d);
    let sp = sv.slot_pieces(fs);
    let is = sv.inline_size() as int;
    lemma_validate_ok(sv, d);
    lemma_parse_slots(sv, d);
    lemma_header_len(sv, fs);
    assert forall|k: int|
        #![trigger sp[k]]
        0 <= k < nt implies d.subrange(is + flat_off(sp, k), is + flat_off(sp, k) + sp[k].len())
        == sp[k] by {
        lemma_slot_offsets(sv, fs, k);
        assert(sp[k] == sv.slot_piece(k, sv.field(d, k)));
        assert(holds(d, sv.slot_off(k) as int, sp[k]));
    }
    lemma_flat_full(sp);
    super::lemmas::lemma_flat_piecewise(d, is, sp, nt);
}

/// The tail of a valid image is the tail pieces of its fields.
proof fn lemma_read_tails(sv: SchemaView, d: Seq<u8>)
    requires
        sv.wf(),
        sv.validate(d) is Ok,
    ensures
        d.subrange(sv.header_size() as int, sv.total(d) as int) == flat(
            sv.tail_pieces(sv.fields(d)),
        ),
        sv.header_size() <= sv.total(d) <= d.len(),
{
    let nt = sv.tails.len() as int;
    let tp = sv.tail_pieces(sv.fields(d));
    let hs = sv.header_size() as int;
    lemma_parse_tails(sv, d);
    assert forall|k: int|
        #![trigger tp[k]]
        0 <= k < nt implies d.subrange(hs + flat_off(tp, k), hs + flat_off(tp, k) + tp[k].len())
        == tp[k] by {
        assert(sv.cursor(d, k) == hs + flat_off(tp, k));
    }
    lemma_flat_full(tp);
    super::lemmas::lemma_flat_piecewise(d, hs, tp, nt);
}

proof fn lemma_read_image(sv: SchemaView, d: Seq<u8>)
    requires
        sv.wf(),
        sv.validate(d) is Ok,
    ensures
        sv.encode(sv.inline_part(d), sv.fields(d)) == d.subrange(0, sv.total(d) as int),
{
    let is = sv.inline_size() as int;
    let hs = sv.header_size() as int;
    lemma_validate_ok(sv, d);
    lemma_slot_off_mono(sv, 0, sv.tails.len() as int);
    lemma_read_slots(sv, d);
    lemma_read_tails(sv, d);
    let total = sv.total(d) as int;
    lemma_split3(d, is, hs, total);
}

proof fn lemma_split3(d: Seq<u8>, a: int, b: int, c: int)
    requires
        0 <= a <= b <= c <= d.len(),
    ensures
        d.subrange(0, c) == d.subrange(0, a) + d.subrange(a, b) + d.subrange(b, c),
{
    assert(d.subrange(0, c) =~= d.subrange(0, a) + d.subrange(a, b) + d.subrange(b, c));
}

/// A valid image is, up to its length, the encoding of what it reads as.
pub proof fn law_read_then_encode(sv: SchemaView, d: Seq<u8>)
    requires
        sv.wf(),
        sv.validate(d) is Ok,
    ensures
        sv.encode(sv.inline_part(d), sv.fields(d)) == d.subrange(0, sv.total(d) as int),
        sv.value_valid(sv.inline_part(d), sv.fields(d)),
{
    lemma_read_image(sv, d);
    lemma_read_valid(sv, d);
}

/// What a valid image reads as is a valid value.
proof fn lemma_read_valid(sv: SchemaView, d: Seq<u8>)
    requires
        sv.wf(),
        sv.validate(d) is Ok,
    ensures
        sv.value_valid(sv.inline_part(d), sv.fields(d)),
{
    let nt = sv.tails.len() as int;
    let fs = sv.fields(d);
    lemma_validate_ok(sv, d);
    lemma_slot_off_mono(sv, 0, nt);
    let ni = sv.inline.len() as int;
    let inl = sv.inline_part(d);
    assert forall|i: int| 0 <= i < ni implies #[trigger] rule_ok(
        sv.inline[i].rule,
        inl.subrange(
            super::model::inline_off(sv.inline, i) as int,
            super::model::inline_off(sv.inline, i + 1) as int,
        ),
    ) by {
        lemma_inline_off_mono(sv.inline, i + 1, ni);
        assert(sv.inline_err_at(d, i) is None);
        assert(sv.inline_bytes(d, i) =~= inl.subrange(
            super::model::inline_off(sv.inline, i) as int,
            super::model::inline_off(sv.inline, i + 1) as int,
        ));
    }
    assert forall|i: int| 0 <= i < nt implies #[trigger] sv.field_valid(i, fs[i]) by {
        lemma_field_valid(sv, d, i);
    }
}

/// Tail parts start past the header.
proof fn lemma_cursor_ge(sv: SchemaView, d: Seq<u8>, i: int)
    ensures
        sv.cursor(d, i) >= sv.header_size(),
    decreases i,
{
    if i > 0 {
        lemma_cursor_ge(sv, d, i - 1);
    }
}

/// Each field of a valid image is a value its field can hold.
proof fn lemma_field_valid(sv: SchemaView, d: Seq<u8>, i: int)
    requires
        sv.wf(),
        sv.validate(d) is Ok,
        0 <= i < sv.tails.len(),
    ensures
        sv.field_valid(i, sv.field(d, i)),
{
    lemma_validate_ok(sv, d);
    lemma_cursor_ge(sv, d, i);
    let t = sv.tails[i];
    assert(sv.slot_err_at(d, i) is None);
    assert(sv.walk_err_at(d, i) is None);
    assert(sv.content_err_at(d, i) is None);
    let f = sv.field(d, i);
    assert(sv.payload(d, i).len() == sv.payload_len(d, i));
    assert(!t.optional ==> f.present);
    if !f.present {
        assert(sv.count(d, i) == 0);
        assert(f.count == 0);
        let u = unit(t);
        assert(f.count * u == 0) by (nonlinear_arith)
            requires f.count == 0;
        assert(sv.payload_len(d, i) == 0);
    }
    assert(f.count <= t.max);
    assert(f.bytes.len() == f.count * unit(t));
}

/// After a commit, the image reads back as the staged replacements over
/// the old fields, with the inline part unchanged.
pub proof fn law_commit_reads_back(
    sv: SchemaView,
    d0: Seq<u8>,
    st: Seq<Option<FieldModel>>,
    d1: Seq<u8>,
)
    requires
        sv.wf(),
        sv.validate(d0) is Ok,
        st.len() == sv.tails.len(),
        forall|i: int|
            0 <= i < st.len() ==> (#[trigger] st[i] matches Some(f) ==> sv.field_valid(i, f)),
        committed(sv, d0, st).len() <= d1.len(),
        d1.subrange(0, committed(sv, d0, st).len() as int) == committed(sv, d0, st),
    ensures
        sv.validate(d1) is Ok,
        sv.inline_part(d1) == sv.inline_part(d0),
        sv.fields(d1) == apply_edits(sv, d0, st),
        sv.total(d1) == committed(sv, d0, st).len(),
{
    let n = committed(sv, d0, st).len() as int;
    let fs1 = apply_edits(sv, d0, st);
    let inl = sv.inline_part(d0);
    law_read_then_encode(sv, d0);
    assert forall|i: int| 0 <= i < fs1.len() implies #[trigger] sv.field_valid(i, fs1[i]) by {
        if st[i] is None {
            assert(sv.fields(d0)[i] == sv.field(d0, i));
        }
    }
    assert(sv.value_valid(inl, fs1));
    let rest = d1.subrange(n, d1.len() as int);
    assert(d1 =~= committed(sv, d0, st) + rest);
    law_encode_then_read(sv, inl, fs1, rest);
}

/// Committing with nothing staged leaves a valid image as it was.
pub proof fn law_commit_nothing_keeps_image(sv: SchemaView, d0: Seq<u8>)
    requires
        sv.wf(),
        sv.validate(d0) is Ok,
    ensures
        committed(sv, d0, Seq::new(sv.tails.len(), |i: int| None::<FieldModel>)) == d0.subrange(
            0,
            sv.total(d0) as int,
        ),
{
    let st = Seq::new(sv.tails.len(), |i: int| None::<FieldModel>);
    assert(apply_edits(sv, d0, st) =~= sv.fields(d0));
    law_read_then_encode(sv, d0);
}

/// A commit with nothing staged, which writes the image it finds and
/// leaves the bytes past it, leaves the whole buffer as it was.
pub proof fn law_commit_nothing_leaves_buffer(sv: SchemaView, d0: Seq<u8>, d1: Seq<u8>)
    requires
        sv.wf(),
        sv.validate(d0) is Ok,
        d1.len() == d0.len(),
        committed(sv, d0, Seq::new(sv.tails.len(), |i: int| None::<FieldModel>)).len() <= d0.len(),
        d1.subrange(
            0,
            committed(sv, d0, Seq::new(sv.tails.len(), |i: int| None::<FieldModel>)).len() as int,
        ) == committed(sv, d0, Seq::new(sv.tails.len(), |i: int| None::<FieldModel>)),
        d1.subrange(
            committed(sv, d0, Seq::new(sv.tails.len(), |i: int| None::<FieldModel>)).len() as int,
            d0.len() as int,
        ) == d0.subrange(
            committed(sv, d0, Seq::new(sv.tails.len(), |i: int| None::<FieldModel>)).len() as int,
            d0.len() as int,
        ),
    ensures
        d1 == d0,
{
    let img = committed(sv, d0, Seq::new(sv.tails.len(), |i: int| None::<FieldModel>));
    law_commit_nothing_keeps_image(sv, d0);
    let n = img.len() as int;
    assert(img == d0.subrange(0, sv.total(d0) as int));
    assert(sv.total(d0) <= d0.len()) by {
        lemma_read_tails(sv, d0);
    }
    assert(n == sv.total(d0));
    assert forall|p: int| 0 <= p < d0.len() implies d1[p] == d0[p] by {
        if p < n {
            assert(d1[p] == d1.subrange(0, n)[p]);
            assert(img[p] == d0[p]);
        } else {
            assert(d1[p] == d1.subrange(n, d0.len() as int)[p - n]);
        }
    }
    assert(d1 =~= d0);
}

} // verus!
