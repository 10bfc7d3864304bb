//! Staged edits of a compact image and their commit.
use vstd::prelude::*;
use vstd::string::StringSliceAdditionalSpecFns;
use vstd::utf8::{encode_utf8_valid_utf8, valid_utf8};
use crate::error::ZeroPodError;
use super::model::{rule_ok, unit, FieldModel, SchemaView, TailKind};
use super::schema::{span_ok, CompactSchema, Span};
use super::lemmas::{
    holds, lemma_flat_full, lemma_flat_off_mono, lemma_flat_piecewise, lemma_flat_take_step,
    lemma_flat_zero, lemma_header_len, lemma_holds_inner, lemma_parse_slots, lemma_parse_tails,
    lemma_slot_off_mono, lemma_slot_offsets, lemma_tail_step, lemma_validate_ok,
};
use super::bytes::lemma_holds_in_prefix;
use super::laws::law_commit_reads_back;
use super::commit::{layout_ok, lemma_piece_in_bounds, lemma_slot_piece_len, phase_back, phase_forward, phase_slots, phase_write};
use super::model::{flat, flat_off, slot_width};
use crate::pod::prefix::lemma_le_bytes_len;

verus! {

/// A staged replacement for one tail field.
#[derive(Clone, Copy)]
pub struct Edit<'a> {
    pub present: bool,
    pub count: u64,
    pub bytes: &'a [u8],
}

pub open spec fn edit_model(e: Edit) -> FieldModel {
    FieldModel { present: e.present, count: e.count as nat, bytes: e.bytes@ }
}

/// The fields of image `d` after the staged replacements.
pub open spec fn apply_edits(sv: SchemaView, d: Seq<u8>, staged: Seq<Option<FieldModel>>) -> Seq<
    FieldModel,
> {
    Seq::new(
        sv.tails.len(),
        |i: int|
            match staged[i] {
                Some(f) => f,
                None => sv.field(d, i),
            },
    )
}

/// The image that committing the staged replacements to `d` produces.
pub open spec fn committed(sv: SchemaView, d: Seq<u8>, staged: Seq<Option<FieldModel>>) -> Seq<u8> {
    sv.encode(sv.inline_part(d), apply_edits(sv, d, staged))
}

/// The models of staged edits.
pub open spec fn staged_of(edits: Seq<Option<Edit>>) -> Seq<Option<FieldModel>> {
    Seq::new(
        edits.len(),
        |i: int|
            match edits[i] {
                Some(e) => Some(edit_model(e)),
                None => None,
            },
    )
}

/// Each span starts where its field's tail piece starts and covers it.
pub open spec fn spans_located(sv: SchemaView, d: Seq<u8>, spans: Seq<Span>) -> bool {
    let p0 = sv.tail_pieces(sv.fields(d));
    &&& spans.len() == sv.tails.len()
    &&& forall|k: int|
        #![trigger spans[k]]
        0 <= k < spans.len() ==> spans[k].start == sv.header_size() + flat_off(p0, k)
            && spans[k].start <= spans[k].payload && (spans[k].payload - spans[k].start)
            + spans[k].len == p0[k].len()
    &&& sv.header_size() + flat(p0).len() <= d.len()
}

pub proof fn lemma_spans_located(sv: SchemaView, d: Seq<u8>, spans: Seq<Span>)
    requires
        sv.wf(),
        sv.validate(d) is Ok,
        spans.len() == sv.tails.len(),
        forall|k: int| 0 <= k < spans.len() ==> #[trigger] span_ok(spans[k], sv, d, k),
    ensures
        spans_located(sv, d, spans),
{
    lemma_validate_ok(sv, d);
    lemma_parse_tails(sv, d);
    let p0 = sv.tail_pieces(sv.fields(d));
    assert forall|k: int|
        #![trigger spans[k]]
        0 <= k < spans.len() implies spans[k].start == sv.header_size() + flat_off(p0, k)
        && spans[k].start <= spans[k].payload && (spans[k].payload - spans[k].start)
        + spans[k].len == p0[k].len() by {
        assert(span_ok(spans[k], sv, d, k));
        assert(sv.slot_err_at(d, k) is None);
        assert(sv.walk_err_at(d, k) is None);
        assert(sv.cursor(d, k) == sv.header_size() + flat_off(p0, k));
        lemma_tail_step(sv, d, k);
        assert(sv.fields(d)[k] == sv.field(d, k));
    }
}

/// `v` with item `i` replaced by `x`.
fn replaced<'a>(v: &Vec<Option<Edit<'a>>>, i: usize, x: Option<Edit<'a>>) -> (r: Vec<Option<Edit<'a>>>)
    requires
        i < v@.len(),
    ensures
        r@ == v@.update(i as int, x),
{
    let n = v.len();
    let mut r: Vec<Option<Edit<'a>>> = Vec::new();
    let mut k: usize = 0;
    while k < n
        invariant
            n == v@.len(),
            i < n,
            k <= n,
            r@ == v@.update(i as int, x).take(k as int),
        decreases n - k,
    {
        if k == i {
            r.push(x);
        } else {
            r.push(v[k]);
        }
        proof {
            assert(v@.update(i as int, x).take(k + 1) =~= v@.update(i as int, x).take(k as int).push(
                v@.update(i as int, x)[k as int],
            ));
        }
        k = k + 1;
    }
    assert(v@.update(i as int, x).take(n as int) =~= v@.update(i as int, x));
    r
}

/// Replacements staged for the tail fields of a compact image, written to
/// the image in one commit.
pub struct CompactMut<'a> {
    schema: &'a CompactSchema,
    edits: Vec<Option<Edit<'a>>>,
}

impl<'a> CompactMut<'a> {
    #[verifier::type_invariant]
    spec fn edits_fit(self) -> bool {
        &&& self.edits@.len() == self.schema@.tails.len()
        &&& forall|i: int|
            0 <= i < self.edits@.len() ==> (#[trigger] self.edits@[i] matches Some(e)
                ==> self.schema@.field_valid(i, edit_model(e)))
    }

    pub closed spec fn layout(self) -> SchemaView {
        self.schema@
    }

    /// The staged replacement of each tail field.
    pub closed spec fn staged(self) -> Seq<Option<FieldModel>> {
        staged_of(self.edits@)
    }

    /// Starts editing `data`, which must pass the check.
    pub fn new(schema: &'a CompactSchema, data: &[u8]) -> (r: Result<Self, ZeroPodError>)
        ensures
            r is Ok <==> schema@.validate(data@) is Ok,
            r matches Err(e) ==> schema@.validate(data@) == Err::<(), ZeroPodError>(e),
            r matches Ok(m) ==> m.layout() == schema@ && m.staged() == Seq::new(
                schema@.tails.len(),
                |i: int| None::<FieldModel>,
            ),
    {
        match schema.scan(data) {
            Ok(_) => {
                let n = schema.tail_count();
                let mut edits: Vec<Option<Edit<'a>>> = Vec::new();
                let mut i: usize = 0;
                while i < n
                    invariant
                        n == schema@.tails.len(),
                        i <= n,
                        edits@.len() == i,
                        forall|k: int| 0 <= k < i ==> #[trigger] edits@[k] is None,
                    decreases n - i,
                {
                    edits.push(None);
                    i = i + 1;
                }
                let m = CompactMut { schema, edits };
                assert(m.staged() =~= Seq::new(schema@.tails.len(), |i: int| None::<FieldModel>));
                Ok(m)
            },
            Err(e) => Err(e),
        }
    }

    fn stage(&mut self, i: usize, present: bool, count: u64, bytes: &'a [u8]) -> (r: Result<
        (),
        ZeroPodError,
    >)
        requires
            i < old(self).layout().tails.len(),
            !old(self).layout().tails[i as int].optional ==> present,
            !present ==> count == 0 && bytes@.len() == 0,
            bytes@.len() == count as nat * unit(old(self).layout().tails[i as int]),
            match old(self).layout().tails[i as int].kind {
                TailKind::Str => valid_utf8(bytes@),
                TailKind::Vec { rule, .. } => rule_ok(rule, bytes@),
            },
        ensures
            final(self).layout() == old(self).layout(),
            count > old(self).layout().tails[i as int].max ==> r == Err::<(), ZeroPodError>(
                ZeroPodError::Overflow,
            ) && final(self).staged() == old(self).staged(),
            count <= old(self).layout().tails[i as int].max ==> r is Ok && final(self).staged()
                == old(self).staged().update(
                i as int,
                Some(FieldModel { present, count: count as nat, bytes: bytes@ }),
            ),
    {
        proof {
            use_type_invariant(&*self);
        }
        let t = self.schema.tail(i);
        if count > t.max {
            return Err(ZeroPodError::Overflow);
        }
        let ghost before = self.staged();
        let e = Edit { present, count, bytes };
        assert(self.schema@.field_valid(i as int, edit_model(e)));
        let edits = replaced(&self.edits, i, Some(e));
        *self = CompactMut { schema: self.schema, edits };
        assert(self.staged() =~= before.update(
            i as int,
            Some(FieldModel { present, count: count as nat, bytes: bytes@ }),
        ));
        Ok(())
    }

    /// Stages new text for required string field `i`.
    pub fn set_str(&mut self, i: usize, value: &'a str) -> (r: Result<(), ZeroPodError>)
        requires
            i < old(self).layout().tails.len(),
            old(self).layout().tails[i as int].kind == TailKind::Str,
            !old(self).layout().tails[i as int].optional,
        ensures
            final(self).staged().len() == final(self).layout().tails.len(),
            final(self).layout() == old(self).layout(),
            value.spec_bytes().len() > old(self).layout().tails[i as int].max ==> r == Err::<
                (),
                ZeroPodError,
            >(ZeroPodError::Overflow) && final(self).staged() == old(self).staged(),
            value.spec_bytes().len() <= old(self).layout().tails[i as int].max ==> r is Ok
                && final(self).staged() == old(self).staged().update(
                i as int,
                Some(
                    FieldModel {
                        present: true,
                        count: value.spec_bytes().len(),
                        bytes: value.spec_bytes(),
                    },
                ),
            ),
    {
        proof {
            use_type_invariant(&*self);
        }
        let bytes = value.as_bytes();
        proof {
            encode_utf8_valid_utf8(value@);
        }
        let n = bytes.len();
        if n as u128 > u64::MAX as u128 {
            proof {
                use_type_invariant(&*self);
            }
            return Err(ZeroPodError::Overflow);
        }
        self.stage(i, true, n as u64, bytes)
    }

    /// Stages new text, or absence, for optional string field `i`.
    pub fn set_opt_str(&mut self, i: usize, value: Option<&'a str>) -> (r: Result<(), ZeroPodError>)
        requires
            i < old(self).layout().tails.len(),
            old(self).layout().tails[i as int].kind == TailKind::Str,
            old(self).layout().tails[i as int].optional,
        ensures
            final(self).staged().len() == final(self).layout().tails.len(),
            final(self).layout() == old(self).layout(),
            match value {
                Some(v) => if v.spec_bytes().len() > old(self).layout().tails[i as int].max {
                    r == Err::<(), ZeroPodError>(ZeroPodError::Overflow) && final(self).staged()
                        == old(self).staged()
                } else {
                    r is Ok && final(self).staged() == old(self).staged().update(
                        i as int,
                        Some(
                            FieldModel {
                                present: true,
                                count: v.spec_bytes().len(),
                                bytes: v.spec_bytes(),
                            },
                        ),
                    )
                },
                None => r is Ok && final(self).staged() == old(self).staged().update(
                    i as int,
                    Some(FieldModel { present: false, count: 0, bytes: Seq::empty() }),
                ),
            },
    {
        proof {
            use_type_invariant(&*self);
        }
        match value {
            Some(v) => {
                let bytes = v.as_bytes();
                proof {
                    encode_utf8_valid_utf8(v@);
                }
                let n = bytes.len();
                if n as u128 > u64::MAX as u128 {
                    proof {
                        use_type_invariant(&*self);
                    }
                    return Err(ZeroPodError::Overflow);
                }
                self.stage(i, true, n as u64, bytes)
            },
            None => {
                let empty: &[u8] = &[];
                proof {
                    assert(empty@ =~= Seq::<u8>::empty());
                    assert(valid_utf8(Seq::<u8>::empty()));
                }
                self.stage(i, false, 0, empty)
            },
        }
    }
    /// Stages new elements for required vector field `i`: `count` elements
    /// whose bytes are `bytes`.
    pub fn set_vec(&mut self, i: usize, count: u64, bytes: &'a [u8]) -> (r: Result<(), ZeroPodError>)
        requires
            i < old(self).layout().tails.len(),
            old(self).layout().tails[i as int].kind is Vec,
            !old(self).layout().tails[i as int].optional,
            bytes@.len() == count as nat * unit(old(self).layout().tails[i as int]),
            rule_ok(old(self).layout().tails[i as int].kind->rule, bytes@),
        ensures
            final(self).staged().len() == final(self).layout().tails.len(),
            final(self).layout() == old(self).layout(),
            count > old(self).layout().tails[i as int].max ==> r == Err::<(), ZeroPodError>(
                ZeroPodError::Overflow,
            ) && final(self).staged() == old(self).staged(),
            count <= old(self).layout().tails[i as int].max ==> r is Ok && final(self).staged()
                == old(self).staged().update(
                i as int,
                Some(FieldModel { present: true, count: count as nat, bytes: bytes@ }),
            ),
    {
        proof {
            use_type_invariant(&*self);
        }
        self.stage(i, true, count, bytes)
    }

    /// Stages new elements, or absence, for optional vector field `i`.
    pub fn set_opt_vec(&mut self, i: usize, value: Option<(u64, &'a [u8])>) -> (r: Result<
        (),
        ZeroPodError,
    >)
        requires
            i < old(self).layout().tails.len(),
            old(self).layout().tails[i as int].kind is Vec,
            old(self).layout().tails[i as int].optional,
            value matches Some((count, bytes)) ==> bytes@.len() == count as nat * unit(
                old(self).layout().tails[i as int],
            ) && rule_ok(old(self).layout().tails[i as int].kind->rule, bytes@),
        ensures
            final(self).staged().len() == final(self).layout().tails.len(),
            final(self).layout() == old(self).layout(),
            match value {
                Some((count, bytes)) => if count > old(self).layout().tails[i as int].max {
                    r == Err::<(), ZeroPodError>(ZeroPodError::Overflow) && final(self).staged()
                        == old(self).staged()
                } else {
                    r is Ok && final(self).staged() == old(self).staged().update(
                        i as int,
                        Some(FieldModel { present: true, count: count as nat, bytes: bytes@ }),
                    )
                },
                None => r is Ok && final(self).staged() == old(self).staged().update(
                    i as int,
                    Some(FieldModel { present: false, count: 0, bytes: Seq::empty() }),
                ),
            },
    {
        proof {
            use_type_invariant(&*self);
        }
        match value {
            Some((count, bytes)) => self.stage(i, true, count, bytes),
            None => {
                let empty: &[u8] = &[];
                proof {
                    assert(empty@ =~= Seq::<u8>::empty());
                }
                self.stage(i, false, 0, empty)
            },
        }
    }
    /// The old and new offsets of the tail fields when the staged
    /// replacements are written to image `d0`, located by `spans`.
    fn plan(&self, spans: &Vec<Span>, dlen: usize, Ghost(d0): Ghost<Seq<u8>>) -> (r: Result<
        (Vec<usize>, Vec<usize>, Vec<usize>, Vec<bool>, usize),
        ZeroPodError,
    >)
        requires
            self.layout().wf(),
            self.layout().validate(d0) is Ok,
            dlen == d0.len(),
            spans@.len() == self.layout().tails.len(),
            spans_located(self.layout(), d0, spans@),
        ensures
            r matches Err(e) ==> e == ZeroPodError::BufferTooSmall && committed(
                self.layout(),
                d0,
                self.staged(),
            ).len() > dlen,
            r matches Ok((oo, ol, no, ed, total)) ==> {
                let sv = self.layout();
                let p0 = sv.tail_pieces(sv.fields(d0));
                let p1 = sv.tail_pieces(apply_edits(sv, d0, self.staged()));
                &&& layout_ok(sv.header_size() as int, p0, p1, oo@, no@, ol@, ed@, dlen as int)
                &&& forall|k: int|
                    0 <= k < ed@.len() ==> (#[trigger] ed@[k] <==> self.edits@[k] is Some)
                &&& total == sv.header_size() + flat(p1).len()
                &&& committed(sv, d0, self.staged()).len() == total
            },
    {
        proof {
            use_type_invariant(self);
        }
        let ghost sv = self.schema@;
        let ghost st = self.staged();
        let ghost fs0 = sv.fields(d0);
        let ghost fs1 = apply_edits(sv, d0, st);
        let ghost p0 = sv.tail_pieces(fs0);
        let ghost p1 = sv.tail_pieces(fs1);
        proof {
            lemma_committed_len(sv, d0, st);
            lemma_flat_full(p1);
            lemma_flat_zero(p1);
        }
        let hs = self.schema.header_size();
        let n = self.schema.tail_count();
        let mut oo: Vec<usize> = Vec::new();
        let mut ol: Vec<usize> = Vec::new();
        let mut no: Vec<usize> = Vec::new();
        let mut ed: Vec<bool> = Vec::new();
        let mut cur: usize = hs;
        let mut i: usize = 0;
        while i < n
            invariant
                sv == self.schema@,
                sv.wf(),
                dlen == d0.len(),
                n == sv.tails.len(),
                hs as nat == sv.header_size(),
                st == self.staged(),
                self.edits@.len() == n,
                forall|k: int|
                    0 <= k < n ==> (#[trigger] self.edits@[k] matches Some(e)
                        ==> sv.field_valid(k, edit_model(e))),
                spans@.len() == n,
                spans_located(sv, d0, spans@),
                committed(sv, d0, st).len() == sv.header_size() + flat(p1).len(),
                flat_off(p1, n as int) == flat(p1).len(),
                fs0 == sv.fields(d0),
                fs1 == apply_edits(sv, d0, st),
                p0 == sv.tail_pieces(fs0),
                p1 == sv.tail_pieces(fs1),
                i <= n,
                cur as int == hs + flat_off(p1, i as int),
                cur <= dlen,
                oo@.len() == i,
                ol@.len() == i,
                no@.len() == i,
                ed@.len() == i,
                forall|k: int| #![trigger oo@[k]] 0 <= k < i ==> oo@[k] == hs + flat_off(p0, k),
                forall|k: int| #![trigger no@[k]] 0 <= k < i ==> no@[k] == hs + flat_off(p1, k),
                forall|k: int| #![trigger ol@[k]] 0 <= k < i ==> ol@[k] == p0[k].len(),
                forall|k: int| #![trigger ed@[k]] 0 <= k < i ==> ed@[k] == self.edits@[k] is Some,
            decreases n - i,
        {
            let ghost ii = i as int;
            let sp = spans[i];
            let t = self.schema.tail(i);
            proof {
                assert(spans@[ii].start == hs + flat_off(p0, ii));
                lemma_piece_in_bounds(hs as int, p0, ii, dlen as int);
                lemma_flat_take_step(p1, ii);
                lemma_flat_off_mono(p1, ii + 1, n as int);
            }
            let olen = (sp.payload - sp.start) + sp.len;
            let (nlen_pfx, nlen_bytes, edited): (usize, usize, bool) = match self.edits[i] {
                Some(e) => {
                    proof {
                        assert(sv.field_valid(ii, edit_model(e)));
                        assert(st[ii] == Some(edit_model(e)));
                        assert(fs1[ii] == edit_model(e));
                        lemma_le_bytes_len(e.count as nat, t.pfx as nat);
                    }
                    (if t.optional && e.present { t.pfx } else { 0 }, e.bytes.len(), true)
                },
                None => {
                    proof {
                        assert(st[ii] is None);
                        assert(fs1[ii] == fs0[ii]);
                        assert(p1[ii] == p0[ii]);
                    }
                    (0, olen, false)
                },
            };
            assert(p1[ii].len() == nlen_pfx + nlen_bytes);
            if nlen_pfx > dlen - cur || nlen_bytes > dlen - cur - nlen_pfx {
                return Err(ZeroPodError::BufferTooSmall);
            }
            oo.push(sp.start);
            ol.push(olen);
            no.push(cur);
            ed.push(edited);
            cur = cur + nlen_pfx + nlen_bytes;
            i = i + 1;
        }
        Ok((oo, ol, no, ed, cur))
    }

    /// Writes the staged replacements to `data`, moving the other tail
    /// fields as their offsets change, and returns the new image length.
    ///
    /// `data` is checked first: an image that fails the check is refused
    /// with that error. When the new image does not fit, nothing is written
    /// and the staged replacements stay. Otherwise the buffer starts with the
    /// new image, the bytes past it are left as they were, and nothing stays
    /// staged.
    pub fn commit(&mut self, data: &mut [u8]) -> (r: Result<usize, ZeroPodError>)
        ensures
            final(self).staged().len() == final(self).layout().tails.len(),
            final(self).layout() == old(self).layout(),
            final(data)@.len() == old(data)@.len(),
            old(self).layout().validate(old(data)@) matches Err(e) ==> r == Err::<
                usize,
                ZeroPodError,
            >(e) && final(data)@ == old(data)@ && final(self).staged() == old(self).staged(),
            old(self).layout().validate(old(data)@) is Ok ==> {
                let img = committed(old(self).layout(), old(data)@, old(self).staged());
                if img.len() > old(data)@.len() {
                    &&& r == Err::<usize, ZeroPodError>(ZeroPodError::BufferTooSmall)
                    &&& final(data)@ == old(data)@
                    &&& final(self).staged() == old(self).staged()
                } else {
                    &&& r == Ok::<usize, ZeroPodError>(img.len() as usize)
                    &&& final(data)@.subrange(0, img.len() as int) == img
                    &&& final(data)@.subrange(img.len() as int, old(data)@.len() as int) == old(
                        data,
                    )@.subrange(img.len() as int, old(data)@.len() as int)
                    &&& old(self).layout().validate(final(data)@) is Ok
                    &&& old(self).layout().inline_part(final(data)@) == old(self).layout().inline_part(
                        old(data)@,
                    )
                    &&& old(self).layout().fields(final(data)@) == apply_edits(
                        old(self).layout(),
                        old(data)@,
                        old(self).staged(),
                    )
                    &&& old(self).layout().total(final(data)@) == img.len()
                    &&& final(self).staged() == Seq::new(
                        old(self).layout().tails.len(),
                        |i: int| None::<FieldModel>,
                    )
                }
            },
    {
        proof {
            use_type_invariant(&*self);
        }
        let ghost sv = self.schema@;
        let ghost d0 = data@;
        let ghost st = self.staged();
        let ghost fs0 = sv.fields(d0);
        let ghost fs1 = apply_edits(sv, d0, st);
        let ghost p0 = sv.tail_pieces(fs0);
        let ghost p1 = sv.tail_pieces(fs1);
        let spans = match self.schema.scan(data) {
            Ok((spans, _)) => spans,
            Err(e) => return Err(e),
        };
        let hs = self.schema.header_size();
        let dlen = data.len();
        let n = self.schema.tail_count();
        proof {
            lemma_spans_located(sv, d0, spans@);
        }
        let (oo, ol, no, ed, total) = match self.plan(&spans, dlen, Ghost(d0)) {
            Ok(x) => x,
            Err(e) => return Err(e),
        };
        let ghost hd = d0.subrange(0, hs as int);
        proof {
            lemma_committed_len(sv, d0, st);
            lemma_back_inputs(sv, d0, oo@, hs as int);
        }
        phase_back(data, &oo, &no, &ol, &ed, Ghost(hs as int), Ghost(hd), Ghost(p0), Ghost(p1));
        let ghost d_back = data@;
        phase_forward(data, &oo, &no, &ol, &ed, Ghost(hs as int), Ghost(hd), Ghost(p0), Ghost(p1));
        let ghost d_fwd = data@;
        proof {
            lemma_write_inputs(sv, d0, self.edits@);
        }
        phase_write(
            data,
            self.schema,
            &self.edits,
            &oo,
            &no,
            &ol,
            &ed,
            Ghost(hs as int),
            Ghost(hd),
            Ghost(p0),
            Ghost(p1),
        );
        let ghost d_write = data@;
        let ghost inl = d0.subrange(0, sv.inline_size() as int);
        let ghost sp0 = sv.slot_pieces(fs0);
        let ghost sp1 = sv.slot_pieces(fs1);
        proof {
            lemma_slot_inputs(sv, d0, self.edits@, data@, no@, p0, p1);
        }
        phase_slots(data, self.schema, &self.edits, &no, Ghost(inl), Ghost(sp0), Ghost(sp1), Ghost(p1));
        proof {
            let e = total as int;
            assert forall|p: int| e <= p < d0.len() implies #[trigger] data@[p] == d0[p] by {
                assert(data@[p] == d_write[p]);
                assert(d_write[p] == d_fwd[p]);
                assert(d_fwd[p] == d_back[p]);
                assert(d_back[p] == d0[p]);
            }
            assert(data@.subrange(e, d0.len() as int) =~= d0.subrange(e, d0.len() as int));
            lemma_assemble(sv, d0, st, data@, no@, total as int);
            assert forall|i: int| 0 <= i < st.len() implies (#[trigger] st[i] matches Some(f)
                ==> sv.field_valid(i, f)) by {
                match self.edits@[i] {
                    Some(e) => {},
                    None => {},
                }
            }
            law_commit_reads_back(sv, d0, st, data@);
        }
        let mut cleared: Vec<Option<Edit<'a>>> = Vec::new();
        let mut k: usize = 0;
        while k < n
            invariant
                k <= n,
                cleared@.len() == k,
                forall|q: int| 0 <= q < k ==> #[trigger] cleared@[q] is None,
            decreases n - k,
        {
            cleared.push(None);
            k = k + 1;
        }
        *self = CompactMut { schema: self.schema, edits: cleared };
        assert(self.staged() =~= Seq::new(n as nat, |i: int| None::<FieldModel>));
        Ok(total)
    }
    /// The length the image will have after the commit, saturating at
    /// `usize::MAX`.
    pub fn projected_size(&self, data: &[u8]) -> (r: usize)
        requires
            self.layout().validate(data@) is Ok,
        ensures
            self.staged().len() == self.layout().tails.len(),
            committed(self.layout(), data@, self.staged()).len() <= usize::MAX ==> r as nat
                == committed(self.layout(), data@, self.staged()).len(),
            committed(self.layout(), data@, self.staged()).len() > usize::MAX ==> r == usize::MAX,
    {
        proof {
            use_type_invariant(self);
        }
        let ghost sv = self.schema@;
        let ghost d0 = data@;
        let ghost st = self.staged();
        let ghost fs0 = sv.fields(d0);
        let ghost fs1 = apply_edits(sv, d0, st);
        let ghost p0 = sv.tail_pieces(fs0);
        let ghost p1 = sv.tail_pieces(fs1);
        let spans = match self.schema.scan(data) {
            Ok((spans, _)) => spans,
            Err(_) => {
                return vstd::pervasive::unreached();
            },
        };
        let hs = self.schema.header_size();
        let dlen = data.len();
        let n = self.schema.tail_count();
        proof {
            lemma_spans_located(sv, d0, spans@);
            lemma_committed_len(sv, d0, st);
            lemma_flat_full(p1);
            lemma_flat_zero(p1);
        }
        let mut acc: usize = hs;
        let mut sat = false;
        let mut i: usize = 0;
        while i < n
            invariant
                sv == self.schema@,
                sv.wf(),
                n == sv.tails.len(),
                hs as nat == sv.header_size(),
                dlen == d0.len(),
                st == self.staged(),
                self.edits@.len() == n,
                forall|k: int|
                    0 <= k < n ==> (#[trigger] self.edits@[k] matches Some(e)
                        ==> sv.field_valid(k, edit_model(e))),
                spans@.len() == n,
                spans_located(sv, d0, spans@),
                fs0 == sv.fields(d0),
                fs1 == apply_edits(sv, d0, st),
                p0 == sv.tail_pieces(fs0),
                p1 == sv.tail_pieces(fs1),
                i <= n,
                !sat ==> acc as int == hs + flat_off(p1, i as int),
                sat ==> hs + flat_off(p1, i as int) > usize::MAX,
            decreases n - i,
        {
            let ghost ii = i as int;
            let sp = spans[i];
            let t = self.schema.tail(i);
            proof {
                lemma_piece_in_bounds(hs as int, p0, ii, dlen as int);
                lemma_flat_take_step(p1, ii);
            }
            let olen = (sp.payload - sp.start) + sp.len;
            let (npfx, nbytes): (usize, usize) = match self.edits[i] {
                Some(e) => {
                    proof {
                        assert(st[ii] == Some(edit_model(e)));
                        assert(fs1[ii] == edit_model(e));
                        lemma_le_bytes_len(e.count as nat, t.pfx as nat);
                    }
                    (if t.optional && e.present { t.pfx } else { 0 }, e.bytes.len())
                },
                None => {
                    proof {
                        assert(st[ii] is None);
                        assert(fs1[ii] == fs0[ii]);
                        assert(p1[ii] == p0[ii]);
                    }
                    (0, olen)
                },
            };
            assert(p1[ii].len() == npfx + nbytes);
            if !sat {
                if npfx > usize::MAX - acc || nbytes > usize::MAX - acc - npfx {
                    sat = true;
                } else {
                    acc = acc + npfx + nbytes;
                }
            }
            i = i + 1;
        }
        if sat {
            usize::MAX
        } else {
            acc
        }
    }
}


/// The committed image is the header followed by the new tail pieces.
proof fn lemma_committed_len(sv: SchemaView, d0: Seq<u8>, st: Seq<Option<FieldModel>>)
    requires
        sv.wf(),
        sv.validate(d0) is Ok,
    ensures
        sv.inline_size() <= sv.header_size() <= d0.len(),
        committed(sv, d0, st).len() == sv.header_size() + flat(
            sv.tail_pieces(apply_edits(sv, d0, st)),
        ).len(),
{
    lemma_validate_ok(sv, d0);
    lemma_slot_off_mono(sv, 0, sv.tails.len() as int);
    lemma_header_len(sv, apply_edits(sv, d0, st));
}

/// A valid image holds each tail piece at its old offset.
proof fn lemma_back_inputs(sv: SchemaView, d0: Seq<u8>, oo: Seq<usize>, hs: int)
    requires
        sv.wf(),
        sv.validate(d0) is Ok,
        hs == sv.header_size(),
        oo.len() == sv.tails.len(),
        forall|k: int|
            #![trigger oo[k]]
            0 <= k < oo.len() ==> oo[k] == hs + flat_off(sv.tail_pieces(sv.fields(d0)), k),
    ensures
        holds(d0, 0, d0.subrange(0, hs)),
        forall|k: int|
            0 <= k < oo.len() ==> #[trigger] holds(
                d0,
                oo[k] as int,
                sv.tail_pieces(sv.fields(d0))[k],
            ),
{
    lemma_validate_ok(sv, d0);
    lemma_parse_tails(sv, d0);
    assert(d0.subrange(0, hs) =~= d0.subrange(0, hs).subrange(0, hs));
    assert forall|k: int| 0 <= k < oo.len() implies #[trigger] holds(
        d0,
        oo[k] as int,
        sv.tail_pieces(sv.fields(d0))[k],
    ) by {
        assert(sv.cursor(d0, k) == oo[k]);
    }
}

/// Each staged edit gives the new tail piece of its field.
proof fn lemma_write_inputs(sv: SchemaView, d0: Seq<u8>, edits: Seq<Option<Edit>>)
    requires
        edits.len() == sv.tails.len(),
        forall|k: int|
            0 <= k < edits.len() ==> (#[trigger] edits[k] matches Some(e) ==> sv.field_valid(
                k,
                edit_model(e),
            )),
    ensures
        forall|k: int|
            0 <= k < edits.len() ==> (#[trigger] edits[k] matches Some(e) ==> sv.tail_pieces(
                apply_edits(sv, d0, staged_of(edits)),
            )[k] == sv.tail_piece(k, edit_model(e)) && sv.field_valid(k, edit_model(e))),
{
}

/// Before the slots are written: the inline part and the old slots are
/// still in place, and the new tail pieces are held.
proof fn lemma_slot_inputs(
    sv: SchemaView,
    d0: Seq<u8>,
    edits: Seq<Option<Edit>>,
    data: Seq<u8>,
    no: Seq<usize>,
    p0: Seq<Seq<u8>>,
    p1: Seq<Seq<u8>>,
)
    requires
        sv.wf(),
        sv.validate(d0) is Ok,
        edits.len() == sv.tails.len(),
        no.len() == sv.tails.len(),
        p1 == sv.tail_pieces(apply_edits(sv, d0, staged_of(edits))),
        holds(data, 0, d0.subrange(0, sv.header_size() as int)),
        forall|k: int|
            #![trigger no[k]]
            0 <= k < no.len() ==> no[k] == sv.header_size() + flat_off(p1, k),
    ensures
        holds(data, 0, d0.subrange(0, sv.inline_size() as int)),
        forall|k: int|
            0 <= k < edits.len() ==> #[trigger] sv.slot_pieces(sv.fields(d0))[k].len()
                == slot_width(sv.tails[k]) && holds(
                data,
                sv.slot_off(k) as int,
                sv.slot_pieces(sv.fields(d0))[k],
            ),
        forall|k: int|
            0 <= k < edits.len() ==> match #[trigger] edits[k] {
                Some(e) => sv.slot_pieces(apply_edits(sv, d0, staged_of(edits)))[k]
                    == sv.slot_piece(k, edit_model(e)),
                None => sv.slot_pieces(apply_edits(sv, d0, staged_of(edits)))[k]
                    == sv.slot_pieces(sv.fields(d0))[k],
            },
        forall|k: int| 0 <= k < edits.len() ==> sv.header_size() <= #[trigger] no[k],
{
    let n = sv.tails.len() as int;
    let hs = sv.header_size() as int;
    let hd = d0.subrange(0, hs);
    let fs0 = sv.fields(d0);
    let sp0 = sv.slot_pieces(fs0);
    lemma_validate_ok(sv, d0);
    lemma_parse_slots(sv, d0);
    lemma_slot_off_mono(sv, 0, n);
    assert(hd.subrange(0, sv.inline_size() as int) =~= d0.subrange(0, sv.inline_size() as int));
    assert(holds(hd, 0, d0.subrange(0, sv.inline_size() as int)));
    lemma_holds_inner(data, 0, hd, 0, d0.subrange(0, sv.inline_size() as int));
    assert forall|k: int| 0 <= k < n implies #[trigger] sp0[k].len() == slot_width(sv.tails[k])
        && holds(data, sv.slot_off(k) as int, sp0[k]) by {
        lemma_slot_piece_len(sv, k, fs0[k]);
        assert(sp0[k] == sv.slot_piece(k, sv.field(d0, k)));
        assert(holds(d0, sv.slot_off(k) as int, sp0[k]));
        lemma_slot_off_mono(sv, k + 1, n);
        lemma_holds_in_prefix(d0, hs, sv.slot_off(k) as int, sp0[k]);
        lemma_holds_inner(data, 0, hd, sv.slot_off(k) as int, sp0[k]);
    }
    assert forall|k: int| 0 <= k < n implies sv.header_size() <= #[trigger] no[k] by {
        lemma_flat_off_mono(p1, 0, k);
    }
}

/// The slots part of the written buffer.
proof fn lemma_assemble_slots(sv: SchemaView, fs1: Seq<FieldModel>, data: Seq<u8>)
    requires
        fs1.len() == sv.tails.len(),
        sv.header_size() <= data.len(),
        forall|k: int|
            0 <= k < fs1.len() ==> #[trigger] holds(
                data,
                sv.slot_off(k) as int,
                sv.slot_pieces(fs1)[k],
            ),
    ensures
        data.subrange(sv.inline_size() as int, sv.header_size() as int) == flat(sv.slot_pieces(fs1)),
{
    let n = sv.tails.len() as int;
    let sp1 = sv.slot_pieces(fs1);
    let is = sv.inline_size() as int;
    lemma_header_len(sv, fs1);
    assert forall|k: int|
        #![trigger sp1[k]]
        0 <= k < n implies data.subrange(
        is + flat_off(sp1, k),
        is + flat_off(sp1, k) + sp1[k].len(),
    ) == sp1[k] by {
        lemma_slot_offsets(sv, fs1, k);
        assert(holds(data, sv.slot_off(k) as int, sp1[k]));
    }
    lemma_flat_full(sp1);
    lemma_flat_piecewise(data, is, sp1, n);
}

/// The tail part of the written buffer.
proof fn lemma_assemble_tails(p1: Seq<Seq<u8>>, data: Seq<u8>, no: Seq<usize>, hs: int)
    requires
        no.len() == p1.len(),
        0 <= hs,
        hs + flat(p1).len() <= data.len(),
        forall|k: int| #![trigger no[k]] 0 <= k < no.len() ==> no[k] == hs + flat_off(p1, k),
        forall|k: int| 0 <= k < no.len() ==> #[trigger] holds(data, no[k] as int, p1[k]),
    ensures
        data.subrange(hs, hs + flat(p1).len()) == flat(p1),
{
    let n = p1.len() as int;
    assert forall|k: int|
        #![trigger p1[k]]
        0 <= k < n implies data.subrange(
        hs + flat_off(p1, k),
        hs + flat_off(p1, k) + p1[k].len(),
    ) == p1[k] by {
        assert(holds(data, no[k] as int, p1[k]));
    }
    lemma_flat_full(p1);
    lemma_flat_piecewise(data, hs, p1, n);
}

/// The written buffer starts with the committed image.
proof fn lemma_assemble(
    sv: SchemaView,
    d0: Seq<u8>,
    st: Seq<Option<FieldModel>>,
    data: Seq<u8>,
    no: Seq<usize>,
    total: int,
)
    requires
        sv.wf(),
        sv.validate(d0) is Ok,
        st.len() == sv.tails.len(),
        no.len() == sv.tails.len(),
        total == sv.header_size() + flat(sv.tail_pieces(apply_edits(sv, d0, st))).len(),
        total <= data.len(),
        holds(data, 0, d0.subrange(0, sv.inline_size() as int)),
        forall|k: int|
            #![trigger no[k]]
            0 <= k < no.len() ==> no[k] == sv.header_size() + flat_off(
                sv.tail_pieces(apply_edits(sv, d0, st)),
                k,
            ),
        forall|k: int|
            0 <= k < st.len() ==> #[trigger] holds(
                data,
                sv.slot_off(k) as int,
                sv.slot_pieces(apply_edits(sv, d0, st))[k],
            ),
        forall|k: int|
            0 <= k < st.len() ==> #[trigger] holds(
                data,
                no[k] as int,
                sv.tail_pieces(apply_edits(sv, d0, st))[k],
            ),
    ensures
        committed(sv, d0, st).len() == total,
        data.subrange(0, total) == committed(sv, d0, st),
{
    let hs = sv.header_size() as int;
    let fs1 = apply_edits(sv, d0, st);
    let is = sv.inline_size() as int;
    lemma_committed_len(sv, d0, st);
    lemma_assemble_slots(sv, fs1, data);
    lemma_assemble_tails(sv.tail_pieces(fs1), data, no, hs);
    assert(data.subrange(0, total) =~= data.subrange(0, is) + data.subrange(is, hs)
        + data.subrange(hs, total));
}

} // verus!
