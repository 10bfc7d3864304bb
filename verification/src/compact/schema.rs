//! A compact schema and the check of a byte image against it.
use vstd::prelude::*;
use vstd::slice::slice_subrange;
use crate::error::ZeroPodError;
use crate::pod::prefix::{read_len, pow256, valid_pfx};
use crate::pod::text::utf8_str;
use super::model::{
    first_err, inline_off, rule_err, tail_rule_ok, rule_fits, rule_size, unit, unit_at, unit_err, unit_errs,
    ByteRule, InlineField, SchemaView, TailField, TailKind,
};
use super::lemmas::{
    lemma_first_err_hit, lemma_first_err_none, lemma_inline_off_mono, lemma_slot_off_mono,
};

verus! {

/// The layout of a compact record: its inline header fields and its tail fields.
pub struct CompactSchema {
    inline: Vec<InlineField>,
    tails: Vec<TailField>,
    inline_size: usize,
    header_size: usize,
}

impl View for CompactSchema {
    type V = SchemaView;

    closed spec fn view(&self) -> SchemaView {
        SchemaView { inline: self.inline@, tails: self.tails@ }
    }
}

/// Where one tail field lies in a checked image.
#[derive(Clone, Copy)]
pub struct Span {
    pub present: bool,
    pub count: u64,
    /// Start of the field's tail part (its in-tail prefix, if any).
    pub start: usize,
    /// Start of the payload bytes.
    pub payload: usize,
    /// Number of payload bytes.
    pub len: usize,
}

pub open spec fn span_ok(sp: Span, sv: SchemaView, d: Seq<u8>, i: int) -> bool {
    &&& sp.present == sv.present(d, i)
    &&& sp.count as nat == sv.count(d, i)
    &&& sp.start as int == sv.cursor(d, i)
    &&& sp.payload as int == sv.payload_start(d, i)
    &&& sp.len as nat == sv.payload_len(d, i)
}

/// Whether `max` fits a `pfx`-byte prefix.
fn prefix_holds(pfx: usize, max: u64) -> (b: bool)
    requires
        valid_pfx(pfx),
    ensures
        b == ((max as nat) < pow256(pfx as nat)),
{
    proof {
        reveal_with_fuel(pow256, 9);
    }
    if pfx == 1 {
        max <= 0xff
    } else if pfx == 2 {
        max <= 0xffff
    } else if pfx == 4 {
        max <= 0xffff_ffff
    } else {
        true
    }
}

/// Whether `rule` fits units of `n` bytes.
fn rule_fits_size(rule: ByteRule, n: usize) -> (b: bool)
    ensures
        b == rule_fits(rule, n as nat),
{
    match rule {
        ByteRule::Tag { size } => size == n && n >= 1,
        ByteRule::Disc { size, width, .. } => size == n && (width == 1 || width == 2 || width
            == 4 || width == 8) && width <= n,
        ByteRule::Text { size, pfx, max } => {
            if !(size == n && (pfx == 1 || pfx == 2 || pfx == 4 || pfx == 8)) {
                return false;
            }
            if !prefix_holds(pfx, max) {
                return false;
            }
            pfx <= n && (max as u128) <= ((n - pfx) as u128)
        },
        _ => true,
    }
}

/// Why the unit of `rule_size(rule)` bytes at `off` breaks `rule`, if it does.
fn check_unit(data: &[u8], off: usize, rule: ByteRule) -> (r: Option<ZeroPodError>)
    requires
        rule_fits(rule, rule_size(rule)),
        rule_size(rule) > 0,
        off + rule_size(rule) <= data@.len(),
    ensures
        r == unit_err(rule, data@.subrange(off as int, off + rule_size(rule))),
{
    let ghost u = data@.subrange(off as int, off + rule_size(rule));
    match rule {
        ByteRule::Tag { .. } => {
            assert(u[0] == data@[off as int]);
            if data[off] > 1 {
                Some(ZeroPodError::InvalidTag)
            } else {
                None
            }
        },
        ByteRule::Disc { width, count, .. } => {
            let v = read_len(data, off, width);
            assert(u.subrange(0, width as int) =~= data@.subrange(off as int, off + width));
            if v >= count {
                Some(ZeroPodError::InvalidDiscriminant)
            } else {
                None
            }
        },
        ByteRule::Text { pfx, max, .. } => {
            let v = read_len(data, off, pfx);
            assert(u.subrange(0, pfx as int) =~= data@.subrange(off as int, off + pfx));
            if v > max {
                return Some(ZeroPodError::InvalidLength);
            }
            assert(pfx + max <= rule_size(rule));
            assert(off + pfx + max <= data@.len());
            let n = v as usize;
            assert(n as nat == v as nat);
            let dl = data.len();
            assert(off + pfx + n <= dl);
            let text = slice_subrange(data, off + pfx, off + pfx + n);
            assert(u.subrange(pfx as int, pfx + n) =~= text@);
            if utf8_str(text).is_none() {
                Some(ZeroPodError::InvalidUtf8)
            } else {
                None
            }
        },
        _ => None,
    }
}

/// Why the bytes `start..end` of `data` break `rule`, if they do.
pub fn check_rule(data: &[u8], start: usize, end: usize, rule: ByteRule) -> (r: Option<ZeroPodError>)
    requires
        start <= end <= data@.len(),
        rule_fits(rule, rule_size(rule)),
    ensures
        r == rule_err(rule, data@.subrange(start as int, end as int)),
{
    let ghost run = data@.subrange(start as int, end as int);
    match rule {
        ByteRule::Any => None,
        ByteRule::Bool => {
            let mut k = start;
            while k < end
                invariant
                    rule == ByteRule::Bool,
                    run == data@.subrange(start as int, end as int),
                    start <= k <= end <= data@.len(),
                    forall|p: int| start <= p < k ==> #[trigger] data@[p] <= 1,
                decreases end - k,
            {
                if data[k] > 1 {
                    assert(run.len() == end - start);
                    assert(data@[k as int] > 1);
                    assert(run[k - start] == data@[k as int]);
                    assert(run[k - start] > 1);
                    return Some(ZeroPodError::InvalidBool);
                }
                k = k + 1;
            }
            assert forall|p: int| 0 <= p < end - start implies #[trigger] run[p] <= 1 by {
                assert(data@[start + p] <= 1);
            }
            None
        },
        _ => {
            let size: usize = match rule {
                ByteRule::Tag { size } => size,
                ByteRule::Disc { size, .. } => size,
                ByteRule::Text { size, .. } => size,
                _ => 0,
            };
            assert(size as nat == rule_size(rule));
            if size == 0 {
                return None;
            }
            let n = (end - start) / size;
            proof {
                let len: int = end - start;
                assert(n * size <= len) by (nonlinear_arith)
                    requires
                        n == len / (size as int),
                        size > 0,
                        len >= 0,
                ;
            }
            let mut j: usize = 0;
            let mut off: usize = start;
            while j < n
                invariant
                    size as nat == rule_size(rule),
                    size > 0,
                    rule_fits(rule, rule_size(rule)),
                    !(rule is Any) && !(rule is Bool),
                    run == data@.subrange(start as int, end as int),
                    start <= end <= data@.len(),
                    n == run.len() / (size as nat),
                    n * size <= end - start,
                    j <= n,
                    off == start + j * size,
                    forall|q: int| 0 <= q < j ==> (#[trigger] unit_errs(rule, run)(q)) is None,
                decreases n - j,
            {
                proof {
                    assert((j + 1) * size <= n * size) by (nonlinear_arith)
                        requires
                            j < n,
                            size > 0,
                    ;
                    assert((j + 1) * size == j * size + size) by (nonlinear_arith);
                }
                let e = check_unit(data, off, rule);
                proof {
                    assert(unit_at(run, size as nat, j as int) =~= data@.subrange(
                        off as int,
                        off + size,
                    ));
                }
                match e {
                    Some(err) => {
                        proof {
                            lemma_first_err_hit(unit_errs(rule, run), 0, j as int, n as int);
                        }
                        return Some(err);
                    },
                    None => {},
                }
                off = off + size;
                j = j + 1;
            }
            proof {
                lemma_first_err_none(unit_errs(rule, run), 0, n as int);
            }
            None
        },
    }
}

impl CompactSchema {
    #[verifier::type_invariant]
    spec fn inv(self) -> bool {
        &&& self.view().wf()
        &&& self.inline_size as nat == self.view().inline_size()
        &&& self.header_size as nat == self.view().header_size()
    }

    /// Builds the schema, or `None` when it is not well formed (a prefix
    /// width other than 1, 2, 4, 8, a capacity its prefix cannot record, a
    /// byte rule that does not fit its field or element, or a header larger
    /// than memory).
    pub fn new(inline: Vec<InlineField>, tails: Vec<TailField>) -> (r: Option<Self>)
        ensures
            r is Some <==> (SchemaView { inline: inline@, tails: tails@ }).wf(),
            r matches Some(s) ==> s@ == (SchemaView { inline: inline@, tails: tails@ }),
    {
        let ghost sv = SchemaView { inline: inline@, tails: tails@ };
        let ni = inline.len();
        let nt = tails.len();
        let mut size: usize = 0;
        let mut i: usize = 0;
        while i < ni
            invariant
                ni == inline@.len(),
                nt == tails@.len(),
                sv == (SchemaView { inline: inline@, tails: tails@ }),
                i <= ni,
                size as nat == inline_off(inline@, i as int),
                forall|k: int|
                    0 <= k < i ==> rule_fits(
                        #[trigger] sv.inline[k].rule,
                        sv.inline[k].size as nat,
                    ),
            decreases ni - i,
        {
            let s = inline[i].size;
            if !rule_fits_size(inline[i].rule, s) {
                return None;
            }
            if s > usize::MAX - size {
                proof {
                    lemma_inline_off_mono(inline@, i + 1, ni as int);
                    lemma_slot_off_mono(sv, 0, nt as int);
                    assert(inline_off(inline@, i + 1) == inline_off(inline@, i as int) + inline@[i as int].size);
                    assert(sv.header_size() > usize::MAX);
                }
                return None;
            }
            size = size + s;
            i = i + 1;
        }
        let inline_size = size;
        let mut j: usize = 0;
        while j < nt
            invariant
                nt == tails@.len(),
                ni == inline@.len(),
                sv == (SchemaView { inline: inline@, tails: tails@ }),
                j <= nt,
                inline_size as nat == sv.inline_size(),
                size as nat == sv.slot_off(j as int),
                forall|k: int|
                    0 <= k < ni ==> rule_fits(
                        #[trigger] sv.inline[k].rule,
                        sv.inline[k].size as nat,
                    ),
                forall|k: int|
                    0 <= k < j ==> valid_pfx(#[trigger] sv.tails[k].pfx) && (sv.tails[k].max as nat)
                        < pow256(sv.tails[k].pfx as nat) && tail_rule_ok(sv.tails[k]),
            decreases nt - j,
        {
            let t = tails[j];
            if !(t.pfx == 1 || t.pfx == 2 || t.pfx == 4 || t.pfx == 8) {
                return None;
            }
            let fits = match t.kind {
                TailKind::Vec { elem_size, rule } => rule_fits_size(rule, elem_size),
                TailKind::Str => true,
            };
            proof {
                assert(t == sv.tails[j as int]);
                assert(fits == tail_rule_ok(sv.tails[j as int]));
            }
            if !fits {
                return None;
            }
            if !prefix_holds(t.pfx, t.max) {
                return None;
            }
            let w: usize = if t.optional { 1 } else { t.pfx };
            if w > usize::MAX - size {
                proof {
                    lemma_slot_off_mono(sv, j + 1, nt as int);
                }
                return None;
            }
            size = size + w;
            j = j + 1;
        }
        assert forall|k: int| 0 <= k < nt implies tail_rule_ok(#[trigger] sv.tails[k]) by {
            assert(valid_pfx(sv.tails[k].pfx));
        }
        Some(CompactSchema { inline, tails, inline_size, header_size: size })
    }

    pub fn header_size(&self) -> (r: usize)
        ensures
            r as nat == self@.header_size(),
            self@.wf(),
    {
        proof {
            use_type_invariant(self);
        }
        self.header_size
    }

    pub fn tail_count(&self) -> (r: usize)
        ensures
            r == self@.tails.len(),
    {
        self.tails.len()
    }

    pub fn tail(&self, i: usize) -> (r: TailField)
        requires
            i < self@.tails.len(),
        ensures
            r == self@.tails[i as int],
    {
        self.tails[i]
    }

    pub fn inline_size(&self) -> (r: usize)
        ensures
            r as nat == self@.inline_size(),
    {
        proof {
            use_type_invariant(self);
        }
        self.inline_size
    }

    /// Checks `data` and locates every tail field; also returns the number of
    /// bytes the image occupies.
    pub fn scan(&self, data: &[u8]) -> (r: Result<(Vec<Span>, usize), ZeroPodError>)
        ensures
            r is Ok <==> self@.validate(data@) is Ok,
            r matches Err(e) ==> self@.validate(data@) == Err::<(), ZeroPodError>(e),
            r matches Ok((spans, total)) ==> {
                &&& spans@.len() == self@.tails.len()
                &&& total as nat == self@.total(data@)
                &&& total <= data@.len()
                &&& forall|i: int|
                    0 <= i < spans@.len() ==> #[trigger] span_ok(spans@[i], self@, data@, i)
            },
    {
        proof {
            use_type_invariant(self);
        }
        let ghost sv = self@;
        let ghost d = data@;
        let dlen = data.len();
        let ni = self.inline.len();
        let nt = self.tails.len();
        if dlen < self.header_size {
            return Err(ZeroPodError::BufferTooSmall);
        }
        proof {
            lemma_slot_off_mono(sv, 0, nt as int);
        }
        // Inline fields.
        let mut i: usize = 0;
        let mut off: usize = 0;
        while i < ni
            invariant
                sv == self@,
                sv.wf(),
                d == data@,
                dlen == d.len(),
                ni == sv.inline.len(),
                nt == sv.tails.len(),
                sv.inline_size() <= sv.header_size() <= dlen,
                i <= ni,
                off as nat == inline_off(sv.inline, i as int),
                forall|j: int| 0 <= j < i ==> (#[trigger] sv.inline_err_at(d, j)) is None,
            decreases ni - i,
        {
            let f = self.inline[i];
            proof {
                lemma_inline_off_mono(sv.inline, i + 1, ni as int);
            }
            let end = off + f.size;
            proof {
                assert(rule_fits(sv.inline[i as int].rule, sv.inline[i as int].size as nat));
            }
            match check_rule(data, off, end, f.rule) {
                Some(e) => {
                    proof {
                        lemma_first_err_hit(sv.inline_errs(d), 0, i as int, ni as int);
                    }
                    return Err(e);
                },
                None => {},
            }
            off = end;
            i = i + 1;
        }
        proof {
            lemma_first_err_none(sv.inline_errs(d), 0, ni as int);
        }
        // Header slots.
        let mut vals: Vec<u64> = Vec::new();
        let mut j: usize = 0;
        while j < nt
            invariant
                sv == self@,
                sv.wf(),
                d == data@,
                dlen == d.len(),
                ni == sv.inline.len(),
                nt == sv.tails.len(),
                sv.header_size() <= dlen,
                first_err(sv.inline_errs(d), 0, ni as int) is None,
                j <= nt,
                off as nat == sv.slot_off(j as int),
                vals@.len() == j,
                forall|k: int| 0 <= k < j ==> #[trigger] vals@[k] as nat == sv.slot_value(d, k),
                forall|k: int| 0 <= k < j ==> (#[trigger] sv.slot_err_at(d, k)) is None,
            decreases nt - j,
        {
            let t = self.tails[j];
            proof {
                lemma_slot_off_mono(sv, j + 1, nt as int);
                assert(valid_pfx(sv.tails[j as int].pfx));
            }
            let w: usize = if t.optional { 1 } else { t.pfx };
            let v = read_len(data, off, w);
            if t.optional {
                if v > 1 {
                    proof {
                        lemma_first_err_hit(sv.slot_errs(d), 0, j as int, nt as int);
                    }
                    return Err(ZeroPodError::InvalidTag);
                }
            } else if v > t.max {
                proof {
                    lemma_first_err_hit(sv.slot_errs(d), 0, j as int, nt as int);
                }
                return Err(ZeroPodError::InvalidLength);
            }
            vals.push(v);
            off = off + w;
            j = j + 1;
        }
        proof {
            lemma_first_err_none(sv.slot_errs(d), 0, nt as int);
        }
        // Tail fields.
        let mut spans: Vec<Span> = Vec::new();
        let mut c: usize = self.header_size;
        let mut j: usize = 0;
        while j < nt
            invariant
                sv == self@,
                sv.wf(),
                d == data@,
                dlen == d.len(),
                ni == sv.inline.len(),
                nt == sv.tails.len(),
                first_err(sv.inline_errs(d), 0, ni as int) is None,
                first_err(sv.slot_errs(d), 0, nt as int) is None,
                vals@.len() == nt,
                forall|k: int| 0 <= k < nt ==> #[trigger] vals@[k] as nat == sv.slot_value(d, k),
                forall|k: int| 0 <= k < nt ==> (#[trigger] sv.slot_err_at(d, k)) is None,
                j <= nt,
                c as int == sv.cursor(d, j as int),
                c <= dlen,
                spans@.len() == j,
                forall|k: int| 0 <= k < j ==> #[trigger] span_ok(spans@[k], sv, d, k),
                forall|k: int| 0 <= k < j ==> (#[trigger] sv.walk_err_at(d, k)) is None,
            decreases nt - j,
        {
            let t = self.tails[j];
            proof {
                assert(valid_pfx(sv.tails[j as int].pfx));
                assert(sv.slot_err_at(d, j as int) is None);
            }
            let present = !t.optional || vals[j] == 1;
            let ipfx: usize = if t.optional && present { t.pfx } else { 0 };
            let count: u64;
            if ipfx > 0 {
                if ipfx > dlen - c {
                    proof {
                        lemma_first_err_hit(sv.walk_errs(d), 0, j as int, nt as int);
                    }
                    return Err(ZeroPodError::BufferTooSmall);
                }
                count = read_len(data, c, t.pfx);
                if count > t.max {
                    proof {
                        lemma_first_err_hit(sv.walk_errs(d), 0, j as int, nt as int);
                    }
                    return Err(ZeroPodError::InvalidLength);
                }
            } else if t.optional {
                count = 0;
            } else {
                count = vals[j];
            }
            let u: usize = match t.kind {
                TailKind::Str => 1,
                TailKind::Vec { elem_size, .. } => elem_size,
            };
            assert(u as nat == unit(sv.tails[j as int]));
            assert(count as nat == sv.count(d, j as int));
            proof {
                assert((count as int) * (u as int) < 0x1_0000_0000_0000_0000_0000_0000_0000_0000)
                    by (nonlinear_arith)
                    requires
                        count < 0x1_0000_0000_0000_0000,
                        u < 0x1_0000_0000_0000_0000,
                ;
                assert(0 <= (count as int) * (u as int)) by (nonlinear_arith)
                    requires count >= 0, u >= 0;
            }
            let plen: u128 = count as u128 * u as u128;
            let p = c + ipfx;
            if plen > (dlen - p) as u128 {
                proof {
                    lemma_first_err_hit(sv.walk_errs(d), 0, j as int, nt as int);
                }
                return Err(ZeroPodError::BufferTooSmall);
            }
            let plen = plen as usize;
            spans.push(Span { present, count, start: c, payload: p, len: plen });
            c = p + plen;
            j = j + 1;
        }
        proof {
            lemma_first_err_none(sv.walk_errs(d), 0, nt as int);
        }
        let total = c;
        // Text contents, all text fields first.
        let mut j: usize = 0;
        while j < nt
            invariant
                sv == self@,
                d == data@,
                dlen == d.len(),
                nt == sv.tails.len(),
                sv.wf(),
                spans@.len() == nt,
                forall|k: int| 0 <= k < nt ==> #[trigger] span_ok(spans@[k], sv, d, k),
                forall|k: int| 0 <= k < nt ==> (#[trigger] sv.walk_err_at(d, k)) is None,
                first_err(sv.inline_errs(d), 0, ni as int) is None,
                first_err(sv.slot_errs(d), 0, nt as int) is None,
                first_err(sv.walk_errs(d), 0, nt as int) is None,
                ni == sv.inline.len(),
                sv.header_size() <= dlen,
                j <= nt,
                forall|k: int| 0 <= k < j ==> (#[trigger] sv.text_err_at(d, k)) is None,
            decreases nt - j,
        {
            let sp = spans[j];
            let t = self.tails[j];
            proof {
                assert(span_ok(spans@[j as int], sv, d, j as int));
                assert(sv.walk_err_at(d, j as int) is None);
            }
            let end = sp.payload + sp.len;
            match t.kind {
                TailKind::Str => {
                    let sub = slice_subrange(data, sp.payload, end);
                    if utf8_str(sub).is_none() {
                        proof {
                            lemma_first_err_hit(sv.text_errs(d), 0, j as int, nt as int);
                        }
                        return Err(ZeroPodError::InvalidUtf8);
                    }
                },
                TailKind::Vec { .. } => {},
            }
            j = j + 1;
        }
        proof {
            lemma_first_err_none(sv.text_errs(d), 0, nt as int);
        }
        // Vector elements.
        let mut j: usize = 0;
        while j < nt
            invariant
                sv == self@,
                d == data@,
                dlen == d.len(),
                nt == sv.tails.len(),
                sv.wf(),
                spans@.len() == nt,
                forall|k: int| 0 <= k < nt ==> #[trigger] span_ok(spans@[k], sv, d, k),
                forall|k: int| 0 <= k < nt ==> (#[trigger] sv.walk_err_at(d, k)) is None,
                first_err(sv.inline_errs(d), 0, ni as int) is None,
                first_err(sv.slot_errs(d), 0, nt as int) is None,
                first_err(sv.walk_errs(d), 0, nt as int) is None,
                first_err(sv.text_errs(d), 0, nt as int) is None,
                ni == sv.inline.len(),
                sv.header_size() <= dlen,
                j <= nt,
                forall|k: int| 0 <= k < j ==> (#[trigger] sv.elem_err_at(d, k)) is None,
            decreases nt - j,
        {
            let sp = spans[j];
            let t = self.tails[j];
            proof {
                assert(span_ok(spans@[j as int], sv, d, j as int));
                assert(sv.walk_err_at(d, j as int) is None);
            }
            let end = sp.payload + sp.len;
            match t.kind {
                TailKind::Str => {},
                TailKind::Vec { rule, .. } => {
                    proof {
                        assert(tail_rule_ok(sv.tails[j as int]));
                    }
                    match check_rule(data, sp.payload, end, rule) {
                        Some(e) => {
                            proof {
                                lemma_first_err_hit(sv.elem_errs(d), 0, j as int, nt as int);
                            }
                            return Err(e);
                        },
                        None => {},
                    }
                },
            }
            j = j + 1;
        }
        proof {
            lemma_first_err_none(sv.elem_errs(d), 0, nt as int);
        }
        Ok((spans, total))
    }
}

} // verus!
