//! The in-place rewrite of a compact image: fields that keep their bytes
//! are moved to their new offsets first, then the staged replacements are
//! written, then the header slots.
use vstd::prelude::*;
use crate::pod::prefix::{write_len, le_bytes, lemma_le_bytes_len};
use super::model::{flat, flat_off, slot_width, FieldModel, SchemaView};
use super::schema::CompactSchema;
use super::edit::{edit_model, Edit};
use super::lemmas::lemma_slot_off_mono;
use super::lemmas::{holds, lemma_flat_off_mono, lemma_flat_full, lemma_holds_frame};
use super::bytes::{move_bytes, write_bytes, lemma_holds_moved, lemma_splice_frame, lemma_holds_empty, lemma_holds_concat};

verus! {

/// The old and new offsets of the tail fields: `p0` are the pieces before,
/// `p1` after; unedited fields keep their piece.
pub open spec fn layout_ok(
    hs: int,
    p0: Seq<Seq<u8>>,
    p1: Seq<Seq<u8>>,
    oo: Seq<usize>,
    no: Seq<usize>,
    ol: Seq<usize>,
    ed: Seq<bool>,
    dlen: int,
) -> bool {
    let n = p0.len();
    &&& p1.len() == n
    &&& oo.len() == n
    &&& no.len() == n
    &&& ol.len() == n
    &&& ed.len() == n
    &&& 0 <= hs
    &&& forall|k: int| #![trigger oo[k]] 0 <= k < n ==> oo[k] == hs + flat_off(p0, k)
    &&& forall|k: int| #![trigger no[k]] 0 <= k < n ==> no[k] == hs + flat_off(p1, k)
    &&& forall|k: int| #![trigger ol[k]] 0 <= k < n ==> ol[k] == p0[k].len()
    &&& forall|k: int| #![trigger ed[k]] 0 <= k < n && !ed[k] ==> p1[k] == p0[k]
    &&& hs + flat(p0).len() <= dlen
    &&& hs + flat(p1).len() <= dlen
}

/// `t` agrees with `s` from position `e` on.
pub open spec fn same_from(s: Seq<u8>, t: Seq<u8>, e: int) -> bool {
    &&& t.len() == s.len()
    &&& forall|p: int| e <= p < s.len() ==> #[trigger] t[p] == s[p]
}

pub proof fn lemma_piece_in_bounds(hs: int, p: Seq<Seq<u8>>, k: int, dlen: int)
    requires
        0 <= k < p.len(),
        0 <= hs,
        hs + flat(p).len() <= dlen,
    ensures
        hs <= hs + flat_off(p, k),
        hs + flat_off(p, k) + p[k].len() <= dlen,
{
    lemma_flat_off_mono(p, k, p.len() as int);
    lemma_flat_full(p);
}

/// Places `a` and `b` apart: pieces of different fields never overlap.
pub proof fn lemma_pieces_apart(p: Seq<Seq<u8>>, a: int, b: int)
    requires
        0 <= a < p.len(),
        0 <= b < p.len(),
        a != b,
    ensures
        a < b ==> flat_off(p, a) + p[a].len() <= flat_off(p, b),
        b < a ==> flat_off(p, b) + p[b].len() <= flat_off(p, a),
{
    if a < b {
        lemma_flat_off_mono(p, a, b);
    } else {
        lemma_flat_off_mono(p, b, a);
    }
}

/// Moves, in increasing order, the unedited fields whose new offset is lower.
pub(crate) fn phase_back(
    data: &mut [u8],
    oo: &Vec<usize>,
    no: &Vec<usize>,
    ol: &Vec<usize>,
    ed: &Vec<bool>,
    Ghost(hs): Ghost<int>,
    Ghost(hd): Ghost<Seq<u8>>,
    Ghost(p0): Ghost<Seq<Seq<u8>>>,
    Ghost(p1): Ghost<Seq<Seq<u8>>>,
)
    requires
        layout_ok(hs, p0, p1, oo@, no@, ol@, ed@, old(data)@.len() as int),
        hd.len() == hs,
        holds(old(data)@, 0, hd),
        forall|k: int|
            0 <= k < oo@.len() && !ed@[k] ==> #[trigger] holds(old(data)@, oo@[k] as int, p0[k]),
    ensures
        final(data)@.len() == old(data)@.len(),
        same_from(old(data)@, final(data)@, hs + flat(p1).len()),
        holds(final(data)@, 0, hd),
        forall|k: int|
            0 <= k < oo@.len() && !ed@[k] && no@[k] < oo@[k] ==> #[trigger] holds(
                final(data)@,
                no@[k] as int,
                p0[k],
            ),
        forall|k: int|
            0 <= k < oo@.len() && !ed@[k] && no@[k] >= oo@[k] ==> #[trigger] holds(
                final(data)@,
                oo@[k] as int,
                p0[k],
            ),
{
    let ghost dlen = data@.len() as int;
    let ghost start = data@;
    let n = oo.len();
    let mut j: usize = 0;
    while j < n
        invariant
            n == oo@.len(),
            layout_ok(hs, p0, p1, oo@, no@, ol@, ed@, dlen),
            data@.len() == dlen,
            start.len() == dlen,
            same_from(start, data@, hs + flat(p1).len()),
            hd.len() == hs,
            holds(data@, 0, hd),
            j <= n,
            forall|k: int|
                0 <= k < j && !ed@[k] && no@[k] < oo@[k] ==> #[trigger] holds(
                    data@,
                    no@[k] as int,
                    p0[k],
                ),
            forall|k: int|
                0 <= k < n && !ed@[k] && no@[k] >= oo@[k] ==> #[trigger] holds(
                    data@,
                    oo@[k] as int,
                    p0[k],
                ),
            forall|k: int|
                j <= k < n && !ed@[k] && no@[k] < oo@[k] ==> #[trigger] holds(
                    data@,
                    oo@[k] as int,
                    p0[k],
                ),
        decreases n - j,
    {
        if !ed[j] && no[j] < oo[j] {
            let ghost prev = data@;
            let ghost jj = j as int;
            proof {
                lemma_piece_in_bounds(hs, p0, jj, dlen);
                lemma_piece_in_bounds(hs, p1, jj, dlen);
                assert(holds(prev, oo@[jj] as int, p0[jj]));
            }
            move_bytes(data, oo[j], no[j], ol[j]);
            proof {
                let a = no@[jj] as int;
                let l = ol@[jj] as int;
                lemma_piece_in_bounds(hs, p1, jj, hs + flat(p1).len());
                assert(p1[jj] == p0[jj]);
                lemma_holds_moved(prev, data@, oo@[jj] as int, a, p0[jj]);
                lemma_holds_frame(prev, data@, a, l, 0, hd);
                assert forall|k: int|
                    0 <= k < jj && !ed@[k] && no@[k] < oo@[k] implies #[trigger] holds(
                    data@,
                    no@[k] as int,
                    p0[k],
                ) by {
                    assert(holds(prev, no@[k] as int, p0[k]));
                    lemma_pieces_apart(p1, k, jj);
                    lemma_holds_frame(prev, data@, a, l, no@[k] as int, p0[k]);
                }
                assert forall|k: int|
                    0 <= k < n && !ed@[k] && no@[k] >= oo@[k] implies #[trigger] holds(
                    data@,
                    oo@[k] as int,
                    p0[k],
                ) by {
                    assert(holds(prev, oo@[k] as int, p0[k]));
                    lemma_pieces_apart(p1, k, jj);
                    lemma_pieces_apart(p0, k, jj);
                    lemma_holds_frame(prev, data@, a, l, oo@[k] as int, p0[k]);
                }
                assert forall|k: int|
                    jj + 1 <= k < n && !ed@[k] && no@[k] < oo@[k] implies #[trigger] holds(
                    data@,
                    oo@[k] as int,
                    p0[k],
                ) by {
                    assert(holds(prev, oo@[k] as int, p0[k]));
                    lemma_pieces_apart(p0, k, jj);
                    lemma_holds_frame(prev, data@, a, l, oo@[k] as int, p0[k]);
                }
            }
        }
        j = j + 1;
    }
}

/// Moves, in decreasing order, the unedited fields whose new offset is higher.
pub(crate) fn phase_forward(
    data: &mut [u8],
    oo: &Vec<usize>,
    no: &Vec<usize>,
    ol: &Vec<usize>,
    ed: &Vec<bool>,
    Ghost(hs): Ghost<int>,
    Ghost(hd): Ghost<Seq<u8>>,
    Ghost(p0): Ghost<Seq<Seq<u8>>>,
    Ghost(p1): Ghost<Seq<Seq<u8>>>,
)
    requires
        layout_ok(hs, p0, p1, oo@, no@, ol@, ed@, old(data)@.len() as int),
        hd.len() == hs,
        holds(old(data)@, 0, hd),
        forall|k: int|
            0 <= k < oo@.len() && !ed@[k] && no@[k] < oo@[k] ==> #[trigger] holds(
                old(data)@,
                no@[k] as int,
                p0[k],
            ),
        forall|k: int|
            0 <= k < oo@.len() && !ed@[k] && no@[k] >= oo@[k] ==> #[trigger] holds(
                old(data)@,
                oo@[k] as int,
                p0[k],
            ),
    ensures
        final(data)@.len() == old(data)@.len(),
        same_from(old(data)@, final(data)@, hs + flat(p1).len()),
        holds(final(data)@, 0, hd),
        forall|k: int|
            0 <= k < oo@.len() && !ed@[k] ==> #[trigger] holds(final(data)@, no@[k] as int, p1[k]),
{
    let ghost dlen = data@.len() as int;
    let ghost start = data@;
    let n = oo.len();
    let mut j: usize = n;
    while j > 0
        invariant
            n == oo@.len(),
            layout_ok(hs, p0, p1, oo@, no@, ol@, ed@, dlen),
            data@.len() == dlen,
            start.len() == dlen,
            same_from(start, data@, hs + flat(p1).len()),
            hd.len() == hs,
            holds(data@, 0, hd),
            j <= n,
            forall|k: int|
                0 <= k < n && !ed@[k] && no@[k] < oo@[k] ==> #[trigger] holds(
                    data@,
                    no@[k] as int,
                    p0[k],
                ),
            forall|k: int|
                j <= k < n && !ed@[k] && no@[k] >= oo@[k] ==> #[trigger] holds(
                    data@,
                    no@[k] as int,
                    p0[k],
                ),
            forall|k: int|
                0 <= k < j && !ed@[k] && no@[k] >= oo@[k] ==> #[trigger] holds(
                    data@,
                    oo@[k] as int,
                    p0[k],
                ),
        decreases j,
    {
        let m = j - 1;
        let ghost mm = m as int;
        let ghost prev = data@;
        proof {
            lemma_piece_in_bounds(hs, p0, mm, dlen);
            lemma_piece_in_bounds(hs, p1, mm, dlen);
        }
        if !ed[m] && no[m] > oo[m] {
            proof {
                assert(holds(prev, oo@[mm] as int, p0[mm]));
            }
            move_bytes(data, oo[m], no[m], ol[m]);
            proof {
                let a = no@[mm] as int;
                let l = ol@[mm] as int;
                lemma_piece_in_bounds(hs, p1, mm, hs + flat(p1).len());
                assert(p1[mm] == p0[mm]);
                lemma_holds_moved(prev, data@, oo@[mm] as int, a, p0[mm]);
                lemma_holds_frame(prev, data@, a, l, 0, hd);
                assert forall|k: int|
                    0 <= k < n && !ed@[k] && no@[k] < oo@[k] implies #[trigger] holds(
                    data@,
                    no@[k] as int,
                    p0[k],
                ) by {
                    assert(holds(prev, no@[k] as int, p0[k]));
                    lemma_pieces_apart(p1, k, mm);
                    lemma_holds_frame(prev, data@, a, l, no@[k] as int, p0[k]);
                }
                assert forall|k: int|
                    mm + 1 <= k < n && !ed@[k] && no@[k] >= oo@[k] implies #[trigger] holds(
                    data@,
                    no@[k] as int,
                    p0[k],
                ) by {
                    assert(holds(prev, no@[k] as int, p0[k]));
                    lemma_pieces_apart(p1, k, mm);
                    lemma_holds_frame(prev, data@, a, l, no@[k] as int, p0[k]);
                }
                assert forall|k: int|
                    0 <= k < mm && !ed@[k] && no@[k] >= oo@[k] implies #[trigger] holds(
                    data@,
                    oo@[k] as int,
                    p0[k],
                ) by {
                    assert(holds(prev, oo@[k] as int, p0[k]));
                    lemma_pieces_apart(p0, k, mm);
                    lemma_holds_frame(prev, data@, a, l, oo@[k] as int, p0[k]);
                }
            }
        } else if !ed[m] && no[m] == oo[m] {
            proof {
                assert(holds(prev, oo@[mm] as int, p0[mm]));
            }
        }
        j = m;
    }
    assert forall|k: int| 0 <= k < n && !ed@[k] implies #[trigger] holds(
        data@,
        no@[k] as int,
        p1[k],
    ) by {
        if no@[k] < oo@[k] {
            assert(holds(data@, no@[k] as int, p0[k]));
        } else {
            assert(holds(data@, no@[k] as int, p0[k]));
        }
    }
}

/// Writes the tail piece of every staged replacement at its new offset.
pub(crate) fn phase_write(
    data: &mut [u8],
    schema: &CompactSchema,
    edits: &Vec<Option<Edit>>,
    oo: &Vec<usize>,
    no: &Vec<usize>,
    ol: &Vec<usize>,
    ed: &Vec<bool>,
    Ghost(hs): Ghost<int>,
    Ghost(hd): Ghost<Seq<u8>>,
    Ghost(p0): Ghost<Seq<Seq<u8>>>,
    Ghost(p1): Ghost<Seq<Seq<u8>>>,
)
    requires
        layout_ok(hs, p0, p1, oo@, no@, ol@, ed@, old(data)@.len() as int),
        schema@.wf(),
        oo@.len() == schema@.tails.len(),
        edits@.len() == oo@.len(),
        forall|k: int| 0 <= k < oo@.len() ==> (#[trigger] ed@[k] <==> edits@[k] is Some),
        forall|k: int|
            0 <= k < oo@.len() ==> (#[trigger] edits@[k] matches Some(e) ==> p1[k]
                == schema@.tail_piece(k, edit_model(e)) && schema@.field_valid(k, edit_model(e))),
        hd.len() == hs,
        holds(old(data)@, 0, hd),
        forall|k: int|
            0 <= k < oo@.len() && !ed@[k] ==> #[trigger] holds(old(data)@, no@[k] as int, p1[k]),
    ensures
        final(data)@.len() == old(data)@.len(),
        same_from(old(data)@, final(data)@, hs + flat(p1).len()),
        holds(final(data)@, 0, hd),
        forall|k: int| 0 <= k < oo@.len() ==> #[trigger] holds(final(data)@, no@[k] as int, p1[k]),
{
    let ghost dlen = data@.len() as int;
    let dl = data.len();
    let ghost sv = schema@;
    let ghost start = data@;
    let n = oo.len();
    let mut j: usize = 0;
    while j < n
        invariant
            n == oo@.len(),
            start.len() == dlen,
            same_from(start, data@, hs + flat(p1).len()),
            sv == schema@,
            sv.wf(),
            n == sv.tails.len(),
            layout_ok(hs, p0, p1, oo@, no@, ol@, ed@, dlen),
            edits@.len() == n,
            forall|k: int| 0 <= k < n ==> (#[trigger] ed@[k] <==> edits@[k] is Some),
            forall|k: int|
                0 <= k < n ==> (#[trigger] edits@[k] matches Some(e) ==> p1[k] == sv.tail_piece(
                    k,
                    edit_model(e),
                ) && sv.field_valid(k, edit_model(e))),
            data@.len() == dlen,
            dl == dlen,
            hd.len() == hs,
            holds(data@, 0, hd),
            j <= n,
            forall|k: int|
                0 <= k < n && (!ed@[k] || k < j) ==> #[trigger] holds(data@, no@[k] as int, p1[k]),
        decreases n - j,
    {
        let ghost jj = j as int;
        proof {
            lemma_piece_in_bounds(hs, p1, jj, dlen);
        }
        match edits[j] {
            Some(e) => {
                let ghost prev = data@;
                let t = schema.tail(j);
                let at = no[j];
                let ghost a = at as int;
                let ghost l = p1[jj].len() as int;
                proof {
                    assert(ed@[jj]);
                    assert(p1[jj] == sv.tail_piece(jj, edit_model(e)));
                    assert(sv.field_valid(jj, edit_model(e)));
                    lemma_le_bytes_len(e.count as nat, t.pfx as nat);
                }
                if t.optional {
                    if e.present {
                        write_len(data, at, t.pfx, e.count);
                        let ghost mid = data@;
                        proof {
                            lemma_splice_frame(prev, a, le_bytes(e.count as nat, t.pfx as nat));
                        }
                        write_bytes(data, at + t.pfx, e.bytes);
                        proof {
                            lemma_holds_frame(mid, data@, a + t.pfx, e.bytes@.len() as int, a, le_bytes(e.count as nat, t.pfx as nat));
                            lemma_holds_concat(data@, a, le_bytes(e.count as nat, t.pfx as nat), e.bytes@);
                            assert forall|p: int| 0 <= p < dlen && !(a <= p < a + l) implies #[trigger] data@[p] == prev[p] by {
                                assert(mid[p] == prev[p]);
                            }
                        }
                    } else {
                        proof {
                            lemma_holds_empty(data@, a);
                        }
                    }
                } else {
                    write_bytes(data, at, e.bytes);
                }
                proof {
                    lemma_piece_in_bounds(hs, p1, jj, hs + flat(p1).len());
                    assert(holds(data@, a, p1[jj]));
                    lemma_holds_frame(prev, data@, a, l, 0, hd);
                    assert forall|k: int|
                        0 <= k < n && (!ed@[k] || k < jj + 1) implies #[trigger] holds(
                        data@,
                        no@[k] as int,
                        p1[k],
                    ) by {
                        if k != jj {
                            assert(holds(prev, no@[k] as int, p1[k]));
                            lemma_pieces_apart(p1, k, jj);
                            lemma_holds_frame(prev, data@, a, l, no@[k] as int, p1[k]);
                        }
                    }
                }
            },
            None => {},
        }
        j = j + 1;
    }
}

pub proof fn lemma_slot_piece_len(sv: SchemaView, k: int, f: FieldModel)
    requires
        0 <= k < sv.tails.len(),
    ensures
        sv.slot_piece(k, f).len() == slot_width(sv.tails[k]),
{
    lemma_le_bytes_len(f.count, sv.tails[k].pfx as nat);
}

/// Writes the header slot of every staged replacement.
pub(crate) fn phase_slots(
    data: &mut [u8],
    schema: &CompactSchema,
    edits: &Vec<Option<Edit>>,
    no: &Vec<usize>,
    Ghost(inl): Ghost<Seq<u8>>,
    Ghost(sp0): Ghost<Seq<Seq<u8>>>,
    Ghost(sp1): Ghost<Seq<Seq<u8>>>,
    Ghost(p1): Ghost<Seq<Seq<u8>>>,
)
    requires
        schema@.wf(),
        edits@.len() == schema@.tails.len(),
        no@.len() == schema@.tails.len(),
        sp0.len() == schema@.tails.len(),
        sp1.len() == schema@.tails.len(),
        p1.len() == schema@.tails.len(),
        schema@.header_size() <= old(data)@.len(),
        inl.len() == schema@.inline_size(),
        holds(old(data)@, 0, inl),
        forall|k: int|
            0 <= k < edits@.len() ==> #[trigger] sp0[k].len() == slot_width(schema@.tails[k])
                && holds(old(data)@, schema@.slot_off(k) as int, sp0[k]),
        forall|k: int|
            0 <= k < edits@.len() ==> match #[trigger] edits@[k] {
                Some(e) => sp1[k] == schema@.slot_piece(k, edit_model(e)),
                None => sp1[k] == sp0[k],
            },
        forall|k: int| 0 <= k < edits@.len() ==> schema@.header_size() <= #[trigger] no@[k],
        forall|k: int| 0 <= k < edits@.len() ==> #[trigger] holds(old(data)@, no@[k] as int, p1[k]),
    ensures
        final(data)@.len() == old(data)@.len(),
        same_from(old(data)@, final(data)@, schema@.header_size() as int),
        holds(final(data)@, 0, inl),
        forall|k: int|
            0 <= k < edits@.len() ==> #[trigger] holds(
                final(data)@,
                schema@.slot_off(k) as int,
                sp1[k],
            ),
        forall|k: int| 0 <= k < edits@.len() ==> #[trigger] holds(final(data)@, no@[k] as int, p1[k]),
{
    let ghost dlen = data@.len() as int;
    let ghost sv = schema@;
    let ghost start = data@;
    let n = edits.len();
    let mut soff: usize = schema.inline_size();
    let mut j: usize = 0;
    while j < n
        invariant
            start.len() == dlen,
            same_from(start, data@, sv.header_size() as int),
            sv == schema@,
            sv.wf(),
            n == sv.tails.len(),
            edits@.len() == n,
            no@.len() == n,
            sp0.len() == n,
            sp1.len() == n,
            p1.len() == n,
            sv.header_size() <= dlen,
            data@.len() == dlen,
            inl.len() == sv.inline_size(),
            holds(data@, 0, inl),
            j <= n,
            soff as nat == sv.slot_off(j as int),
            forall|k: int| 0 <= k < n ==> #[trigger] sp0[k].len() == slot_width(sv.tails[k]),
            forall|k: int|
                0 <= k < n ==> match #[trigger] edits@[k] {
                    Some(e) => sp1[k] == sv.slot_piece(k, edit_model(e)),
                    None => sp1[k] == sp0[k],
                },
            forall|k: int| 0 <= k < j ==> #[trigger] holds(data@, sv.slot_off(k) as int, sp1[k]),
            forall|k: int| j <= k < n ==> #[trigger] holds(data@, sv.slot_off(k) as int, sp0[k]),
            forall|k: int| 0 <= k < n ==> sv.header_size() <= #[trigger] no@[k],
            forall|k: int| 0 <= k < n ==> #[trigger] holds(data@, no@[k] as int, p1[k]),
        decreases n - j,
    {
        let ghost jj = j as int;
        let t = schema.tail(j);
        proof {
            lemma_slot_off_mono(sv, jj + 1, n as int);
            lemma_slot_off_mono(sv, 0, jj);
        }
        let w: usize = if t.optional { 1 } else { t.pfx };
        let ghost prev = data@;
        let ghost a = soff as int;
        let ghost l = w as int;
        proof {
            assert(holds(prev, a, sp0[jj]));
        }
        match edits[j] {
            Some(e) => {
                proof {
                    lemma_slot_piece_len(sv, jj, edit_model(e));
                    assert(sp1[jj] == sv.slot_piece(jj, edit_model(e)));
                }
                if t.optional {
                    let b: u8 = if e.present { 1 } else { 0 };
                    data[soff] = b;
                    proof {
                        assert(data@.subrange(a, a + 1) =~= seq![b]);
                    }
                } else {
                    write_len(data, soff, t.pfx, e.count);
                    proof {
                        lemma_splice_frame(prev, a, le_bytes(e.count as nat, t.pfx as nat));
                    }
                }
                proof {
                    assert(holds(data@, a, sp1[jj]));
                    lemma_holds_frame(prev, data@, a, l, 0, inl);
                    assert forall|k: int| 0 <= k < jj + 1 implies #[trigger] holds(
                        data@,
                        sv.slot_off(k) as int,
                        sp1[k],
                    ) by {
                        if k < jj {
                            assert(holds(prev, sv.slot_off(k) as int, sp1[k]));
                            lemma_slot_off_mono(sv, k + 1, jj);
                            match edits@[k] {
                                Some(ek) => lemma_slot_piece_len(sv, k, edit_model(ek)),
                                None => {},
                            }
                            lemma_holds_frame(prev, data@, a, l, sv.slot_off(k) as int, sp1[k]);
                        }
                    }
                    assert forall|k: int| jj + 1 <= k < n implies #[trigger] holds(
                        data@,
                        sv.slot_off(k) as int,
                        sp0[k],
                    ) by {
                        assert(holds(prev, sv.slot_off(k) as int, sp0[k]));
                        lemma_slot_off_mono(sv, jj + 1, k);
                        lemma_holds_frame(prev, data@, a, l, sv.slot_off(k) as int, sp0[k]);
                    }
                    assert forall|k: int| 0 <= k < n implies #[trigger] holds(data@, no@[k] as int, p1[k]) by {
                        assert(holds(prev, no@[k] as int, p1[k]));
                        lemma_slot_off_mono(sv, jj + 1, n as int);
                        lemma_holds_frame(prev, data@, a, l, no@[k] as int, p1[k]);
                    }
                }
            },
            None => {
                proof {
                    assert(sp1[jj] == sp0[jj]);
                }
            },
        }
        soff = soff + w;
        j = j + 1;
    }
}

} // verus!
