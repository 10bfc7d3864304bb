//! Compact enums: a little-endian discriminant followed by the compact image
//! of the variant's payload, if it has one.
use vstd::prelude::*;
use vstd::slice::slice_subrange;
use crate::error::ZeroPodError;
use crate::pod::prefix::{
    le_bytes, le_value, lemma_le_bytes_len, lemma_le_roundtrip, pow256, read_len,
    valid_pfx, write_len,
};
use super::model::SchemaView;
use super::schema::CompactSchema;
use super::view::{validate, CompactRef};
use super::bytes::{lemma_splice_frame, write_bytes};
use super::lemmas::holds;

verus! {

/// One variant: its discriminant and the layout of its payload, if any.
pub struct EnumVariant {
    pub disc: u64,
    pub payload: Option<CompactSchema>,
}

pub struct VariantView {
    pub disc: u64,
    pub payload: Option<SchemaView>,
}

impl View for EnumVariant {
    type V = VariantView;

    open spec fn view(&self) -> VariantView {
        VariantView {
            disc: self.disc,
            payload: match self.payload {
                Some(s) => Some(s@),
                None => None,
            },
        }
    }
}

/// An enum layout seen as its discriminant width and its variants.
pub struct EnumView {
    pub width: usize,
    pub variants: Seq<VariantView>,
}

/// The first variant from `i` on whose discriminant is `disc`.
pub open spec fn find_variant(vs: Seq<VariantView>, disc: nat, i: int) -> Option<int>
    decreases vs.len() - i,
{
    if i >= vs.len() {
        None
    } else if vs[i].disc as nat == disc {
        Some(i)
    } else {
        find_variant(vs, disc, i + 1)
    }
}

impl EnumView {
    pub open spec fn wf(self) -> bool {
        &&& valid_pfx(self.width)
        &&& forall|i: int|
            0 <= i < self.variants.len() ==> (#[trigger] self.variants[i].disc as nat) < pow256(
                self.width as nat,
            ) && (self.variants[i].payload matches Some(s) ==> s.wf())
        &&& forall|i: int, j: int|
            0 <= i < j < self.variants.len() ==> #[trigger] self.variants[i].disc
                != #[trigger] self.variants[j].disc
    }

    pub open spec fn disc_of(self, d: Seq<u8>) -> nat {
        le_value(d.subrange(0, self.width as int))
    }

    /// The variant an image holds, if its discriminant names one.
    pub open spec fn variant_of(self, d: Seq<u8>) -> Option<int> {
        find_variant(self.variants, self.disc_of(d), 0)
    }

    pub open spec fn payload_bytes(self, d: Seq<u8>) -> Seq<u8> {
        d.subrange(self.width as int, d.len() as int)
    }

    /// The verdict on an image: it must hold the discriminant, the
    /// discriminant must name a variant, and the rest must be a valid image
    /// of that variant's payload.
    pub open spec fn validate(self, d: Seq<u8>) -> Result<(), ZeroPodError> {
        if d.len() < self.width {
            Err(ZeroPodError::BufferTooSmall)
        } else {
            match self.variant_of(d) {
                None => Err(ZeroPodError::InvalidDiscriminant),
                Some(k) => match self.variants[k].payload {
                    None => Ok(()),
                    Some(s) => s.validate(self.payload_bytes(d)),
                },
            }
        }
    }

    /// The number of bytes a valid image occupies.
    pub open spec fn total(self, d: Seq<u8>) -> nat {
        match self.variants[self.variant_of(d)->0].payload {
            None => self.width as nat,
            Some(s) => self.width as nat + s.total(self.payload_bytes(d)),
        }
    }

    /// The image of variant `k` with payload image `payload`.
    pub open spec fn encode(self, k: int, payload: Seq<u8>) -> Seq<u8> {
        le_bytes(self.variants[k].disc as nat, self.width as nat) + payload
    }
}

proof fn lemma_find_skip(vs: Seq<VariantView>, disc: nat, a: int, i: int)
    requires
        0 <= a <= i,
        forall|j: int| a <= j < i && j < vs.len() ==> (#[trigger] vs[j].disc as nat) != disc,
    ensures
        find_variant(vs, disc, a) == find_variant(vs, disc, i),
    decreases i - a,
{
    if a < i && a < vs.len() {
        lemma_find_skip(vs, disc, a + 1, i);
    } else if a < i {
    }
}

/// The layout of a compact enum.
pub struct CompactEnum {
    width: usize,
    variants: Vec<EnumVariant>,
}

impl View for CompactEnum {
    type V = EnumView;

    closed spec fn view(&self) -> EnumView {
        EnumView {
            width: self.width,
            variants: Seq::new(self.variants@.len(), |i: int| self.variants@[i]@),
        }
    }
}

impl CompactEnum {
    #[verifier::type_invariant]
    spec fn inv(self) -> bool {
        self.view().wf()
    }

    /// Builds the layout, or `None` when the discriminant width is not 1,
    /// 2, 4 or 8 bytes, a discriminant does not fit it, or two variants
    /// share a discriminant.
    pub fn new(width: usize, variants: Vec<EnumVariant>) -> (r: Option<Self>)
        ensures
            r is Some <==> (EnumView {
                width,
                variants: Seq::new(variants@.len(), |i: int| variants@[i]@),
            }).wf(),
            r matches Some(e) ==> e@ == (EnumView {
                width,
                variants: Seq::new(variants@.len(), |i: int| variants@[i]@),
            }),
    {
        let ghost ev = EnumView {
            width,
            variants: Seq::new(variants@.len(), |i: int| variants@[i]@),
        };
        if !(width == 1 || width == 2 || width == 4 || width == 8) {
            return None;
        }
        let n = variants.len();
        let mut i: usize = 0;
        while i < n
            invariant
                n == variants@.len(),
                ev == (EnumView {
                    width,
                    variants: Seq::new(variants@.len(), |i: int| variants@[i]@),
                }),
                valid_pfx(width),
                i <= n,
                forall|k: int|
                    0 <= k < i ==> (#[trigger] ev.variants[k].disc as nat) < pow256(width as nat)
                        && (ev.variants[k].payload matches Some(s) ==> s.wf()),
                forall|a: int, b: int|
                    0 <= a < b < i ==> #[trigger] ev.variants[a].disc != #[trigger] ev.variants[b].disc,
            decreases n - i,
        {
            let d = variants[i].disc;
            let mut j: usize = 0;
            while j < i
                invariant
                    n == variants@.len(),
                    i < n,
                    j <= i,
                    d == ev.variants[i as int].disc,
                    ev == (EnumView {
                        width,
                        variants: Seq::new(variants@.len(), |i: int| variants@[i]@),
                    }),
                    forall|a: int| 0 <= a < j ==> #[trigger] ev.variants[a].disc != d,
                decreases i - j,
            {
                if variants[j].disc == d {
                    proof {
                        assert(ev.variants[j as int].disc == ev.variants[i as int].disc);
                    }
                    return None;
                }
                j = j + 1;
            }
            proof {
                reveal_with_fuel(pow256, 9);
            }
            let fits = if width == 8 {
                true
            } else if width == 4 {
                d <= 0xffff_ffff
            } else if width == 2 {
                d <= 0xffff
            } else {
                d <= 0xff
            };
            if !fits {
                proof {
                    assert(!((ev.variants[i as int].disc as nat) < pow256(width as nat)));
                }
                return None;
            }
            match &variants[i].payload {
                Some(s) => {
                    let _ = s.header_size();
                },
                None => {},
            }
            i = i + 1;
        }
        Some(CompactEnum { width, variants })
    }

    pub fn width(&self) -> (r: usize)
        ensures
            r == self@.width,
            self@.wf(),
    {
        proof {
            use_type_invariant(self);
        }
        self.width
    }

    /// Finds the variant that the image's discriminant names.
    fn find(&self, data: &[u8]) -> (r: Option<usize>)
        requires
            data@.len() >= self@.width,
        ensures
            r matches Some(k) ==> self@.variant_of(data@) == Some(k as int) && k
                < self@.variants.len(),
            r is None ==> self@.variant_of(data@) is None,
    {
        proof {
            use_type_invariant(self);
        }
        let ghost ev = self@;
        let disc = read_len(data, 0, self.width);
        let n = self.variants.len();
        let mut k: usize = 0;
        while k < n
            invariant
                ev == self@,
                n == ev.variants.len(),
                disc as nat == ev.disc_of(data@),
                k <= n,
                forall|j: int| 0 <= j < k ==> (#[trigger] ev.variants[j].disc as nat) != disc,
            decreases n - k,
        {
            if self.variants[k].disc == disc {
                proof {
                    lemma_find_skip(ev.variants, disc as nat, 0, k as int);
                }
                return Some(k);
            }
            k = k + 1;
        }
        proof {
            lemma_find_skip(ev.variants, disc as nat, 0, n as int);
        }
        None
    }

    /// Checks `data` against the layout.
    pub fn validate(&self, data: &[u8]) -> (r: Result<(), ZeroPodError>)
        ensures
            r == self@.validate(data@),
    {
        match self.check(data) {
            Ok(_) => Ok(()),
            Err(e) => Err(e),
        }
    }

    /// Checks `data` and returns the variant and the image length.
    fn check(&self, data: &[u8]) -> (r: Result<(usize, usize), ZeroPodError>)
        ensures
            r is Ok <==> self@.validate(data@) is Ok,
            r matches Err(e) ==> self@.validate(data@) == Err::<(), ZeroPodError>(e),
            r matches Ok((k, total)) ==> self@.variant_of(data@) == Some(k as int) && k
                < self@.variants.len() && total as nat == self@.total(data@) && total
                <= data@.len(),
    {
        proof {
            use_type_invariant(self);
        }
        if data.len() < self.width {
            return Err(ZeroPodError::BufferTooSmall);
        }
        let k = match self.find(data) {
            Some(k) => k,
            None => return Err(ZeroPodError::InvalidDiscriminant),
        };
        assert(self@.variants[k as int] == self.variants@[k as int]@);
        match &self.variants[k].payload {
            None => Ok((k, self.width)),
            Some(s) => {
                let rest = slice_subrange(data, self.width, data.len());
                match s.scan(rest) {
                    Ok((_, t)) => Ok((k, self.width + t)),
                    Err(e) => Err(e),
                }
            },
        }
    }
}

/// Read access to an enum image that passed the check.
pub struct EnumRef<'a> {
    schema: &'a CompactEnum,
    data: &'a [u8],
    variant: usize,
}

impl<'a> EnumRef<'a> {
    #[verifier::type_invariant]
    spec fn checked(self) -> bool {
        &&& self.schema@.validate(self.data@) is Ok
        &&& self.schema@.variant_of(self.data@) == Some(self.variant as int)
        &&& self.variant < self.schema@.variants.len()
    }

    pub closed spec fn layout(self) -> EnumView {
        self.schema@
    }

    pub closed spec fn bytes(self) -> Seq<u8> {
        self.data@
    }

    pub fn new(schema: &'a CompactEnum, data: &'a [u8]) -> (r: Result<Self, ZeroPodError>)
        ensures
            r is Ok <==> schema@.validate(data@) is Ok,
            r matches Err(e) ==> schema@.validate(data@) == Err::<(), ZeroPodError>(e),
            r matches Ok(v) ==> v.layout() == schema@ && v.bytes() == data@,
    {
        match schema.check(data) {
            Ok((k, _)) => Ok(EnumRef { schema, data, variant: k }),
            Err(e) => Err(e),
        }
    }

    /// The index of the variant the image holds; the image is one that
    /// passed the check.
    pub fn variant(&self) -> (r: usize)
        ensures
            self.layout().validate(self.bytes()) is Ok,
            self.layout().variant_of(self.bytes()) == Some(r as int),
            r < self.layout().variants.len(),
    {
        proof {
            use_type_invariant(self);
        }
        self.variant
    }

    /// The payload of the variant, if it has one.
    pub fn payload(&self) -> (r: Option<CompactRef<'a>>)
        ensures
            r is Some <==> self.layout().variants[self.layout().variant_of(
                self.bytes(),
            )->0].payload is Some,
            r matches Some(v) ==> Some(v.layout()) == self.layout().variants[self.layout().variant_of(
                self.bytes(),
            )->0].payload && v.bytes() == self.layout().payload_bytes(self.bytes()),
    {
        proof {
            use_type_invariant(self);
        }
        let schema: &'a CompactEnum = self.schema;
        let data: &'a [u8] = self.data;
        let k = self.variant;
        let w = schema.width();
        assert(schema@.variants[k as int] == schema.variants@[k as int]@);
        match &schema.variants[k].payload {
            None => None,
            Some(s) => {
                let rest = slice_subrange(data, w, data.len());
                match CompactRef::new(s, rest) {
                    Ok(v) => Some(v),
                    Err(_) => vstd::pervasive::unreached(),
                }
            },
        }
    }
}

/// A variant replacement staged for an enum image.
pub struct EnumMut<'a> {
    schema: &'a CompactEnum,
    staged: Option<(usize, &'a [u8])>,
}

impl<'a> EnumMut<'a> {
    #[verifier::type_invariant]
    spec fn staged_fits(self) -> bool {
        self.staged matches Some((k, p)) ==> {
            &&& k < self.schema@.variants.len()
            &&& match self.schema@.variants[k as int].payload {
                None => p@.len() == 0,
                Some(s) => s.validate(p@) is Ok && s.total(p@) == p@.len(),
            }
        }
    }

    pub closed spec fn layout(self) -> EnumView {
        self.schema@
    }

    /// The staged variant and its payload image, if any.
    pub closed spec fn staged(self) -> Option<(int, Seq<u8>)> {
        match self.staged {
            Some((k, p)) => Some((k as int, p@)),
            None => None,
        }
    }

    /// Starts editing `data`, which must pass the check.
    pub fn new(schema: &'a CompactEnum, data: &[u8]) -> (r: Result<Self, ZeroPodError>)
        ensures
            r is Ok <==> schema@.validate(data@) is Ok,
            r matches Err(e) ==> schema@.validate(data@) == Err::<(), ZeroPodError>(e),
            r matches Ok(m) ==> m.layout() == schema@ && m.staged() is None,
    {
        match schema.check(data) {
            Ok(_) => Ok(EnumMut { schema, staged: None }),
            Err(e) => Err(e),
        }
    }

    /// Stages variant `k` with the payload read from the image `payload`
    /// (ignored for a variant without payload). A payload image that fails
    /// the variant's check is refused with that error.
    pub fn set_variant(&mut self, k: usize, payload: &'a [u8]) -> (r: Result<(), ZeroPodError>)
        requires
            k < old(self).layout().variants.len(),
        ensures
            final(self).layout() == old(self).layout(),
            match old(self).layout().variants[k as int].payload {
                None => r is Ok && final(self).staged() == Some((k as int, Seq::<u8>::empty())),
                Some(s) => match s.validate(payload@) {
                    Err(e) => r == Err::<(), ZeroPodError>(e) && final(self).staged() == old(
                        self,
                    ).staged(),
                    Ok(_) => r is Ok && final(self).staged() == Some(
                        (k as int, payload@.subrange(0, s.total(payload@) as int)),
                    ),
                },
            },
    {
        proof {
            use_type_invariant(&*self);
        }
        let schema: &'a CompactEnum = self.schema;
        assert(schema@.variants[k as int] == schema.variants@[k as int]@);
        match &schema.variants[k].payload {
            None => {
                let empty: &'a [u8] = slice_subrange(payload, 0, 0);
                *self = EnumMut { schema, staged: Some((k, empty)) };
                Ok(())
            },
            Some(s) => match s.scan(payload) {
                Ok((_, t)) => {
                    let _ = s.header_size();
                    let p = slice_subrange(payload, 0, t);
                    proof {
                        super::laws::law_read_then_encode(s@, payload@);
                        lemma_prefix_valid(s@, payload@, t as int);
                    }
                    *self = EnumMut { schema, staged: Some((k, p)) };
                    Ok(())
                },
                Err(e) => Err(e),
            },
        }
    }

    /// Writes the staged variant to `data`, or, with nothing staged, leaves
    /// it as it is; returns the image length. Bytes past the new image are
    /// left as they were.
    ///
    /// `data` is checked first. When the new image does not fit, nothing is
    /// written and the variant stays staged.
    pub fn commit(&mut self, data: &mut [u8]) -> (r: Result<usize, ZeroPodError>)
        ensures
            final(self).layout() == old(self).layout(),
            final(data)@.len() == old(data)@.len(),
            old(self).layout().validate(old(data)@) matches Err(e) ==> r == Err::<
                usize,
                ZeroPodError,
            >(e) && final(data)@ == old(data)@ && final(self).staged() == old(self).staged(),
            old(self).layout().validate(old(data)@) is Ok ==> match old(self).staged() {
                None => r == Ok::<usize, ZeroPodError>(
                    old(self).layout().total(old(data)@) as usize,
                ) && final(data)@ == old(data)@ && final(self).staged() is None,
                Some((k, p)) => {
                    let img = old(self).layout().encode(k, p);
                    if img.len() > old(data)@.len() {
                        &&& r == Err::<usize, ZeroPodError>(ZeroPodError::BufferTooSmall)
                        &&& final(data)@ == old(data)@
                        &&& final(self).staged() == old(self).staged()
                    } else {
                        &&& r == Ok::<usize, ZeroPodError>(img.len() as usize)
                        &&& final(data)@.subrange(0, img.len() as int) == img
                        &&& final(data)@.subrange(img.len() as int, old(data)@.len() as int)
                            == old(data)@.subrange(img.len() as int, old(data)@.len() as int)
                        &&& final(self).staged() is None
                    }
                },
            },
    {
        proof {
            use_type_invariant(&*self);
        }
        let total = match self.schema.check(data) {
            Ok((_, t)) => t,
            Err(e) => return Err(e),
        };
        match self.staged {
            None => Ok(total),
            Some((k, p)) => {
                let w = self.schema.width();
                let disc = self.schema.variants[k].disc;
                assert(self.schema@.variants[k as int] == self.schema.variants@[k as int]@);
                let dlen = data.len();
                if w > dlen || p.len() > dlen - w {
                    proof {
                        lemma_le_bytes_len(disc as nat, w as nat);
                    }
                    return Err(ZeroPodError::BufferTooSmall);
                }
                let ghost d0 = data@;
                write_len(data, 0, w, disc);
                let ghost mid = data@;
                proof {
                    lemma_le_bytes_len(disc as nat, w as nat);
                    lemma_splice_frame(d0, 0, le_bytes(disc as nat, w as nat));
                }
                write_bytes(data, w, p);
                proof {
                    let img = self.schema@.encode(k as int, p@);
                    assert(data@.subrange(0, w as int) =~= mid.subrange(0, w as int));
                    assert(data@.subrange(0, img.len() as int) =~= data@.subrange(0, w as int)
                        + data@.subrange(w as int, w + p@.len()));
                    assert(data@.subrange(img.len() as int, d0.len() as int) =~= d0.subrange(
                        img.len() as int,
                        d0.len() as int,
                    ));
                }
                *self = EnumMut { schema: self.schema, staged: None };
                Ok(w + p.len())
            },
        }
    }
}

/// An image written for variant `k` with a valid payload image reads back as
/// that variant and that payload, whatever bytes follow it.
pub proof fn law_enum_encode_then_read(ev: EnumView, k: int, payload: Seq<u8>, rest: Seq<u8>)
    requires
        ev.wf(),
        0 <= k < ev.variants.len(),
        match ev.variants[k].payload {
            None => payload.len() == 0,
            Some(s) => s.validate(payload) is Ok && s.total(payload) == payload.len(),
        },
    ensures
        ev.validate(ev.encode(k, payload) + rest) is Ok,
        ev.variant_of(ev.encode(k, payload) + rest) == Some(k),
        ev.total(ev.encode(k, payload) + rest) == ev.encode(k, payload).len(),
        ev.payload_bytes(ev.encode(k, payload) + rest).subrange(0, payload.len() as int)
            == payload,
{
    let w = ev.width as int;
    let disc = ev.variants[k].disc as nat;
    let d = ev.encode(k, payload) + rest;
    lemma_le_bytes_len(disc, ev.width as nat);
    lemma_le_roundtrip(disc, ev.width as nat);
    assert(d.subrange(0, w) =~= le_bytes(disc, ev.width as nat));
    assert forall|j: int| 0 <= j < k && j < ev.variants.len() implies (
    #[trigger] ev.variants[j].disc as nat) != disc by {
        assert(ev.variants[j].disc != ev.variants[k].disc);
    }
    lemma_find_skip(ev.variants, disc, 0, k);
    let pb = ev.payload_bytes(d);
    assert(pb =~= payload + rest);
    assert(pb.subrange(0, payload.len() as int) =~= payload);
    match ev.variants[k].payload {
        None => {},
        Some(s) => {
            super::laws::law_read_then_encode(s, payload);
            assert(payload.subrange(0, payload.len() as int) =~= payload);
            super::laws::law_encode_then_read(
                s,
                s.inline_part(payload),
                s.fields(payload),
                rest,
            );
        },
    }
}

/// The first `t` bytes of a valid image, `t` its length, are a valid image
/// of the same length.
proof fn lemma_prefix_valid(sv: SchemaView, d: Seq<u8>, t: int)
    requires
        sv.wf(),
        sv.validate(d) is Ok,
        t == sv.total(d),
        t <= d.len(),
        sv.encode(sv.inline_part(d), sv.fields(d)) == d.subrange(0, t),
        sv.value_valid(sv.inline_part(d), sv.fields(d)),
    ensures
        sv.validate(d.subrange(0, t)) is Ok,
        sv.total(d.subrange(0, t)) == t,
{
    super::laws::law_encode_then_read(sv, sv.inline_part(d), sv.fields(d), Seq::empty());
    assert(sv.encode(sv.inline_part(d), sv.fields(d)) + Seq::<u8>::empty() =~= d.subrange(0, t));
}

} // verus!
