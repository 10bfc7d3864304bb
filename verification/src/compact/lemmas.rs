//! Facts about offsets, concatenations and first errors used by the proofs.
use vstd::prelude::*;
use crate::error::ZeroPodError;
use crate::pod::prefix::{le_value, lemma_le_bytes_len, lemma_le_bytes_of_value};
use super::model::{first_err, flat, flat_off, inline_off, slot_width, FieldModel, InlineField, SchemaView};

verus! {

pub proof fn lemma_inline_off_mono(inl: Seq<InlineField>, i: int, j: int)
    requires
        0 <= i <= j,
    ensures
        inline_off(inl, i) <= inline_off(inl, j),
    decreases j,
{
    if i < j {
        lemma_inline_off_mono(inl, i, j - 1);
    }
}

pub proof fn lemma_slot_off_mono(sv: SchemaView, i: int, j: int)
    requires
        0 <= i <= j,
    ensures
        sv.slot_off(i) <= sv.slot_off(j),
        sv.inline_size() <= sv.slot_off(i),
    decreases j,
{
    if i < j {
        lemma_slot_off_mono(sv, i, j - 1);
    } else if i > 0 {
        lemma_slot_off_mono(sv, 0, i - 1);
    }
}

/// When `f` reports nothing on `a..i`, the first error from `a` is the first from `i`.
pub proof fn lemma_first_err_skip(f: spec_fn(int) -> Option<ZeroPodError>, a: int, i: int, n: int)
    requires
        a <= i <= n,
        forall|j: int| a <= j < i ==> (#[trigger] f(j)) is None,
    ensures
        first_err(f, a, n) == first_err(f, i, n),
    decreases i - a,
{
    if a < i {
        lemma_first_err_skip(f, a + 1, i, n);
    }
}

/// When `f` first reports at `i`, that is the first error from `a`.
pub proof fn lemma_first_err_hit(f: spec_fn(int) -> Option<ZeroPodError>, a: int, i: int, n: int)
    requires
        a <= i < n,
        forall|j: int| a <= j < i ==> (#[trigger] f(j)) is None,
        f(i) is Some,
    ensures
        first_err(f, a, n) == f(i),
{
    lemma_first_err_skip(f, a, i, n);
}

/// No error on `a..n` means `first_err` finds none.
pub proof fn lemma_first_err_none(f: spec_fn(int) -> Option<ZeroPodError>, a: int, n: int)
    requires
        a <= n,
        forall|j: int| a <= j < n ==> (#[trigger] f(j)) is None,
    ensures
        first_err(f, a, n) is None,
{
    lemma_first_err_skip(f, a, n, n);
}

/// `first_err` finds nothing exactly when `f` reports nothing.
pub proof fn lemma_first_err_none_all(f: spec_fn(int) -> Option<ZeroPodError>, a: int, n: int)
    requires
        first_err(f, a, n) is None,
    ensures
        forall|j: int| a <= j < n ==> (#[trigger] f(j)) is None,
    decreases n - a,
{
    if a < n {
        lemma_first_err_none_all(f, a + 1, n);
    }
}

pub proof fn lemma_flat_take_step(parts: Seq<Seq<u8>>, i: int)
    requires
        0 <= i < parts.len(),
    ensures
        flat(parts.take(i + 1)) == flat(parts.take(i)) + parts[i],
        flat_off(parts, i + 1) == flat_off(parts, i) + parts[i].len(),
{
    assert(parts.take(i + 1).drop_last() =~= parts.take(i));
}

pub proof fn lemma_flat_off_mono(parts: Seq<Seq<u8>>, i: int, j: int)
    requires
        0 <= i <= j <= parts.len(),
    ensures
        flat_off(parts, i) <= flat_off(parts, j),
        i < j ==> flat_off(parts, i) + parts[i].len() <= flat_off(parts, j),
    decreases j - i,
{
    if i < j {
        lemma_flat_take_step(parts, i);
        lemma_flat_off_mono(parts, i + 1, j);
    }
}

pub proof fn lemma_flat_full(parts: Seq<Seq<u8>>)
    ensures
        flat(parts.take(parts.len() as int)) == flat(parts),
        flat_off(parts, parts.len() as int) == flat(parts).len(),
{
    assert(parts.take(parts.len() as int) =~= parts);
}

pub proof fn lemma_flat_zero(parts: Seq<Seq<u8>>)
    ensures
        flat_off(parts, 0) == 0,
{
    assert(parts.take(0) =~= Seq::<Seq<u8>>::empty());
}

/// A sequence that holds each part at its place holds the concatenation.
pub proof fn lemma_flat_piecewise(s: Seq<u8>, base: int, parts: Seq<Seq<u8>>, n: int)
    requires
        0 <= n <= parts.len(),
        0 <= base,
        base + flat_off(parts, n) <= s.len(),
        forall|i: int|
            #![trigger parts[i]]
            0 <= i < n ==> s.subrange(
                base + flat_off(parts, i),
                base + flat_off(parts, i) + parts[i].len(),
            ) == parts[i],
    ensures
        s.subrange(base, base + flat_off(parts, n)) == flat(parts.take(n)),
    decreases n,
{
    if n == 0 {
        lemma_flat_zero(parts);
        assert(parts.take(0) =~= Seq::<Seq<u8>>::empty());
        assert(s.subrange(base, base) =~= Seq::<u8>::empty());
    } else {
        lemma_flat_take_step(parts, n - 1);
        lemma_flat_off_mono(parts, n - 1, n);
        lemma_flat_piecewise(s, base, parts, n - 1);
        let o = base + flat_off(parts, n - 1);
        assert(s.subrange(o, o + parts[n - 1].len()) == parts[n - 1]);
        assert(s.subrange(base, base + flat_off(parts, n)) =~= s.subrange(base, o) + s.subrange(
            o,
            o + parts[n - 1].len(),
        ));
    }
}

/// Part `i` of a concatenation sits at its offset.
pub proof fn lemma_flat_part(parts: Seq<Seq<u8>>, i: int)
    requires
        0 <= i < parts.len(),
    ensures
        flat_off(parts, i) + parts[i].len() <= flat(parts).len(),
        flat(parts).subrange(flat_off(parts, i) as int, (flat_off(parts, i) + parts[i].len()) as int)
            == parts[i],
{
    lemma_flat_off_mono(parts, i, parts.len() as int);
    lemma_flat_full(parts);
    lemma_flat_part_prefix(parts, i, parts.len() as int);
}

proof fn lemma_flat_part_prefix(parts: Seq<Seq<u8>>, i: int, n: int)
    requires
        0 <= i < n <= parts.len(),
    ensures
        flat_off(parts, i) + parts[i].len() <= flat(parts.take(n)).len(),
        flat(parts.take(n)).subrange(flat_off(parts, i) as int, (flat_off(parts, i) + parts[i].len()) as int)
            == parts[i],
    decreases n,
{
    lemma_flat_take_step(parts, n - 1);
    if i == n - 1 {
        let a = flat(parts.take(i));
        assert((a + parts[i]).subrange(a.len() as int, (a.len() + parts[i].len()) as int) =~= parts[i]);
    } else {
        lemma_flat_part_prefix(parts, i, n - 1);
        let a = flat(parts.take(n - 1));
        let o = flat_off(parts, i) as int;
        assert((a + parts[n - 1]).subrange(o, o + parts[i].len()) =~= a.subrange(
            o,
            o + parts[i].len(),
        ));
    }
}

/// `s` holds `piece` at offset `at`.
pub open spec fn holds(s: Seq<u8>, at: int, piece: Seq<u8>) -> bool {
    &&& 0 <= at
    &&& at + piece.len() <= s.len()
    &&& s.subrange(at, at + piece.len()) == piece
}

/// A piece held in a larger piece is held at the shifted offset.
pub proof fn lemma_holds_inner(s: Seq<u8>, at: int, outer: Seq<u8>, off: int, piece: Seq<u8>)
    requires
        holds(s, at, outer),
        holds(outer, off, piece),
    ensures
        holds(s, at + off, piece),
{
    assert(s.subrange(at + off, at + off + piece.len()) =~= outer.subrange(off, off + piece.len()));
}

/// A write outside a held piece keeps it held.
pub proof fn lemma_holds_frame(s: Seq<u8>, t: Seq<u8>, a: int, l: int, at: int, piece: Seq<u8>)
    requires
        holds(s, at, piece),
        s.len() == t.len(),
        forall|p: int| 0 <= p < s.len() && !(a <= p < a + l) ==> #[trigger] t[p] == s[p],
        at + piece.len() <= a || a + l <= at || l == 0 || piece.len() == 0,
    ensures
        holds(t, at, piece),
{
    assert(t.subrange(at, at + piece.len()) =~= s.subrange(at, at + piece.len()));
}

/// The header slots sit one after another from the end of the inline part.
pub proof fn lemma_slot_offsets(sv: SchemaView, fs: Seq<FieldModel>, i: int)
    requires
        0 <= i <= sv.tails.len(),
        fs.len() == sv.tails.len(),
    ensures
        sv.slot_off(i) == sv.inline_size() + flat_off(sv.slot_pieces(fs), i),
    decreases i,
{
    let sp = sv.slot_pieces(fs);
    if i == 0 {
        lemma_flat_zero(sp);
    } else {
        lemma_slot_offsets(sv, fs, i - 1);
        lemma_flat_take_step(sp, i - 1);
        lemma_le_bytes_len(fs[i - 1].count, sv.tails[i - 1].pfx as nat);
        assert(sp[i - 1].len() == slot_width(sv.tails[i - 1]));
    }
}

/// The header is the inline part followed by the slots.
pub proof fn lemma_header_len(sv: SchemaView, fs: Seq<FieldModel>)
    requires
        fs.len() == sv.tails.len(),
    ensures
        sv.header_size() == sv.inline_size() + flat(sv.slot_pieces(fs)).len(),
{
    lemma_slot_offsets(sv, fs, sv.tails.len() as int);
    lemma_flat_full(sv.slot_pieces(fs));
}

/// A valid image passes every individual check.
pub proof fn lemma_validate_ok(sv: SchemaView, d: Seq<u8>)
    requires
        sv.validate(d) is Ok,
    ensures
        sv.header_size() <= d.len(),
        forall|j: int| 0 <= j < sv.inline.len() ==> (#[trigger] sv.inline_err_at(d, j)) is None,
        forall|j: int| 0 <= j < sv.tails.len() ==> (#[trigger] sv.slot_err_at(d, j)) is None,
        forall|j: int| 0 <= j < sv.tails.len() ==> (#[trigger] sv.walk_err_at(d, j)) is None,
        forall|j: int| 0 <= j < sv.tails.len() ==> (#[trigger] sv.content_err_at(d, j)) is None,
{
    let ni = sv.inline.len() as int;
    let nt = sv.tails.len() as int;
    lemma_first_err_none_all(sv.inline_errs(d), 0, ni);
    lemma_first_err_none_all(sv.slot_errs(d), 0, nt);
    lemma_first_err_none_all(sv.walk_errs(d), 0, nt);
    lemma_first_err_none_all(sv.text_errs(d), 0, nt);
    lemma_first_err_none_all(sv.elem_errs(d), 0, nt);
    assert forall|j: int| 0 <= j < ni implies (#[trigger] sv.inline_err_at(d, j)) is None by {
        assert(sv.inline_errs(d)(j) is None);
    }
    assert forall|j: int| 0 <= j < nt implies (#[trigger] sv.slot_err_at(d, j)) is None by {
        assert(sv.slot_errs(d)(j) is None);
    }
    assert forall|j: int| 0 <= j < nt implies (#[trigger] sv.walk_err_at(d, j)) is None by {
        assert(sv.walk_errs(d)(j) is None);
    }
    assert forall|j: int| 0 <= j < nt implies (#[trigger] sv.content_err_at(d, j)) is None by {
        assert(sv.text_errs(d)(j) is None);
        assert(sv.elem_errs(d)(j) is None);
    }
}

/// Slot `i` of an image whose slot check passes holds the slot piece of its field.
pub proof fn lemma_slot_step(sv: SchemaView, d: Seq<u8>, i: int)
    requires
        sv.wf(),
        0 <= i < sv.tails.len(),
        sv.header_size() <= d.len(),
        sv.slot_err_at(d, i) is None,
    ensures
        holds(d, sv.slot_off(i) as int, sv.slot_piece(i, sv.field(d, i))),
{
    let nt = sv.tails.len() as int;
    lemma_slot_off_mono(sv, i + 1, nt);
    let t = sv.tails[i];
    let sb = sv.slot_bytes(d, i);
    lemma_le_bytes_of_value(sb);
    if t.optional {
        assert(sb.len() == 1);
        assert(sb.drop_first() =~= Seq::<u8>::empty());
        assert(le_value(sb) == sb[0] as nat);
        assert(sb =~= seq![sb[0]]);
    }
}

/// In a valid image each slot holds the slot piece of its field.
pub proof fn lemma_parse_slots(sv: SchemaView, d: Seq<u8>)
    requires
        sv.wf(),
        sv.validate(d) is Ok,
    ensures
        forall|i: int|
            #![trigger sv.tails[i]]
            0 <= i < sv.tails.len() ==> holds(
                d,
                sv.slot_off(i) as int,
                sv.slot_piece(i, sv.field(d, i)),
            ),
{
    lemma_validate_ok(sv, d);
    assert forall|i: int|
        #![trigger sv.tails[i]]
        0 <= i < sv.tails.len() implies holds(
            d,
            sv.slot_off(i) as int,
            sv.slot_piece(i, sv.field(d, i)),
        ) by {
        assert(sv.slot_err_at(d, i) is None);
        lemma_slot_step(sv, d, i);
    }
}

/// Tail field `i` of an image whose checks pass holds its tail piece, which
/// spans up to the next cursor.
pub proof fn lemma_tail_step(sv: SchemaView, d: Seq<u8>, i: int)
    requires
        sv.wf(),
        0 <= i < sv.tails.len(),
        sv.slot_err_at(d, i) is None,
        sv.walk_err_at(d, i) is None,
        sv.header_size() <= sv.cursor(d, i),
    ensures
        holds(d, sv.cursor(d, i), sv.tail_piece(i, sv.field(d, i))),
        sv.cursor(d, i + 1) == sv.cursor(d, i) + sv.tail_piece(i, sv.field(d, i)).len(),
{
    let t = sv.tails[i];
    let c = sv.cursor(d, i);
    let f = sv.field(d, i);
    let piece = sv.tail_piece(i, f);
    assert(sv.cursor(d, i + 1) == c + sv.span_at(d, i, c));
    assert(f.count == sv.count_at(d, i, c));
    assert(f.bytes.len() == sv.payload_len(d, i));
    if t.optional && f.present {
        let pb = d.subrange(c, c + t.pfx);
        lemma_le_bytes_of_value(pb);
        lemma_le_bytes_len(f.count, t.pfx as nat);
        assert(d.subrange(c, c + piece.len()) =~= pb + f.bytes);
        assert(piece.len() == sv.span_at(d, i, c));
    } else if t.optional {
        assert(d.subrange(c, c + 0) =~= Seq::<u8>::empty());
        assert(piece.len() == sv.span_at(d, i, c));
    } else {
        assert(piece.len() == sv.span_at(d, i, c));
    }
}

/// In a valid image the tail fields sit one after another from the end of
/// the header, each holding its tail piece.
pub proof fn lemma_parse_tails(sv: SchemaView, d: Seq<u8>)
    requires
        sv.wf(),
        sv.validate(d) is Ok,
    ensures
        forall|i: int|
            #![trigger sv.cursor(d, i)]
            0 <= i < sv.tails.len() ==> sv.cursor(d, i) == sv.header_size() + flat_off(
                sv.tail_pieces(sv.fields(d)),
                i,
            ) && holds(d, sv.cursor(d, i), sv.tail_pieces(sv.fields(d))[i]),
        sv.total(d) == sv.header_size() + flat(sv.tail_pieces(sv.fields(d))).len(),
        sv.total(d) <= d.len(),
{
    let nt = sv.tails.len() as int;
    lemma_validate_ok(sv, d);
    lemma_parse_tails_upto(sv, d, nt);
    lemma_flat_full(sv.tail_pieces(sv.fields(d)));
}

#[verifier::rlimit(50)]
proof fn lemma_parse_tails_upto(sv: SchemaView, d: Seq<u8>, n: int)
    requires
        sv.wf(),
        0 <= n <= sv.tails.len(),
        sv.header_size() <= d.len(),
        forall|j: int| 0 <= j < sv.tails.len() ==> (#[trigger] sv.slot_err_at(d, j)) is None,
        forall|j: int| 0 <= j < sv.tails.len() ==> (#[trigger] sv.walk_err_at(d, j)) is None,
    ensures
        forall|i: int|
            #![trigger sv.cursor(d, i)]
            0 <= i < n ==> sv.cursor(d, i) == sv.header_size() + flat_off(
                sv.tail_pieces(sv.fields(d)),
                i,
            ) && holds(d, sv.cursor(d, i), sv.tail_pieces(sv.fields(d))[i]),
        sv.cursor(d, n) == sv.header_size() + flat_off(sv.tail_pieces(sv.fields(d)), n),
        sv.cursor(d, n) <= d.len(),
    decreases n,
{
    let tp = sv.tail_pieces(sv.fields(d));
    if n == 0 {
        lemma_flat_zero(tp);
    } else {
        let i = n - 1;
        lemma_parse_tails_upto(sv, d, i);
        lemma_flat_take_step(tp, i);
        assert(sv.slot_err_at(d, i) is None);
        assert(sv.walk_err_at(d, i) is None);
        assert(tp[i] == sv.tail_piece(i, sv.field(d, i)));
        lemma_tail_step(sv, d, i);
    }
}

} // verus!
