//! An optional value stored as a tag byte followed by a payload slot.
use vstd::prelude::*;
use vstd::std_specs::cmp::PartialEqSpec;
use vstd::slice::slice_subrange;
use crate::error::ZeroPodError;
use super::elem::ZcElem;
use super::string::zeros;

verus! {

/// An optional value kept as a tag byte and a payload slot.
///
/// The tag is `1` for a present value and `0` for an absent one; only tag
/// `1` makes the payload visible. Storage bytes with any other tag fail the
/// check (`InvalidTag`), so no value with such a tag is ever built.
#[derive(Copy, Debug)]
pub struct PodOption<T: Copy> {
    tag: u8,
    value: Option<T>,
}

impl<T: Copy> PodOption<T> {
    #[verifier::type_invariant]
    spec fn slot_filled(self) -> bool {
        &&& self.tag <= 1
        &&& (self.tag == 1 <==> self.value is Some)
    }

    /// The value the option holds: present exactly when the tag is `1`.
    pub closed spec fn view(self) -> Option<T> {
        if self.tag == 1 {
            self.value
        } else {
            None
        }
    }

    /// The raw tag byte.
    pub closed spec fn spec_tag(self) -> u8 {
        self.tag
    }


    pub fn none() -> (r: Self)
        ensures
            r.view() is None,
            r.spec_tag() == 0,
    {
        PodOption { tag: 0, value: None }
    }

    pub fn some(value: T) -> (r: Self)
        ensures
            r.view() == Some(value),
            r.spec_tag() == 1,
    {
        PodOption { tag: 1, value: Some(value) }
    }

    pub fn is_some(&self) -> (b: bool)
        ensures
            b == (self.spec_tag() == 1),
            b == self.view() is Some,
    {
        proof {
            use_type_invariant(self);
        }
        self.tag == 1
    }

    pub fn is_none(&self) -> (b: bool)
        ensures
            b == (self.spec_tag() != 1),
            b == self.view() is None,
    {
        !self.is_some()
    }

    /// Whether the tag is one of the two that the storage format defines.
    pub fn tag_valid(&self) -> (b: bool)
        ensures
            b == (self.spec_tag() == 0 || self.spec_tag() == 1),
    {
        self.tag <= 1
    }

    pub fn get(&self) -> (r: Option<T>)
        ensures
            r == self.view(),
    {
        proof {
            use_type_invariant(self);
        }
        if self.tag == 1 {
            self.value
        } else {
            None
        }
    }

    /// A reference to the value, if present.
    pub fn get_ref(&self) -> (r: Option<&T>)
        ensures
            r is Some <==> self.view() is Some,
            r matches Some(v) ==> *v == self.view()->0,
    {
        proof {
            use_type_invariant(self);
        }
        if self.tag == 1 {
            match &self.value {
                Some(v) => Some(v),
                None => None,
            }
        } else {
            None
        }
    }

    pub fn set(&mut self, value: Option<T>)
        ensures
            final(self).view() == value,
            final(self).spec_tag() == (if value is Some { 1u8 } else { 0u8 }),
    {
        match value {
            Some(v) => {
                *self = PodOption { tag: 1, value: Some(v) };
            },
            None => {
                *self = PodOption { tag: 0, value: None };
            },
        }
    }

    pub fn raw_tag(&self) -> (r: u8)
        ensures
            r == self.spec_tag(),
    {
        self.tag
    }

    /// The payload of a present value.
    pub fn assume_init_ref(&self) -> (r: &T)
        requires
            self.view() is Some,
        ensures
            *r == self.view()->0,
    {
        proof {
            use_type_invariant(self);
        }
        match &self.value {
            Some(v) => v,
            None => vstd::pervasive::unreached(),
        }
    }

    pub fn take(&mut self) -> (r: Option<T>)
        ensures
            r == old(self).view(),
            final(self).view() is None,
            final(self).spec_tag() == 0,
    {
        let result = self.get();
        *self = PodOption { tag: 0, value: None };
        result
    }

    pub fn replace(&mut self, value: T) -> (r: Option<T>)
        ensures
            r == old(self).view(),
            final(self).view() == Some(value),
            final(self).spec_tag() == 1,
    {
        let old_value = self.get();
        *self = PodOption { tag: 1, value: Some(value) };
        old_value
    }

    pub fn clear(&mut self)
        ensures
            final(self).view() is None,
            final(self).spec_tag() == 0,
    {
        *self = PodOption { tag: 0, value: None };
    }

    pub fn unwrap_or(self, default: T) -> (r: T)
        ensures
            r == (match self.view() {
                Some(v) => v,
                None => default,
            }),
    {
        match self.get() {
            Some(v) => v,
            None => default,
        }
    }

    pub fn map_or<U, F: FnOnce(T) -> U>(&self, default: U, f: F) -> (r: U)
        requires
            self.view() is Some ==> f.requires((self.view()->0,)),
        ensures
            self.view() is None ==> r == default,
            self.view() is Some ==> f.ensures((self.view()->0,), r),
    {
        match self.get() {
            Some(v) => f(v),
            None => default,
        }
    }
}

impl<T: Copy> Clone for PodOption<T> {
    fn clone(&self) -> (r: Self)
        ensures
            r == *self,
    {
        *self
    }
}

impl<T: Copy> Default for PodOption<T> {
    fn default() -> (r: Self)
        ensures
            r.view() is None,
            r.spec_tag() == 0,
    {
        Self::none()
    }
}

impl<T: ZcElem> PodOption<T> {
    /// The storage image fits in memory.
    pub open spec fn layout_ok() -> bool {
        &&& 1 + T::spec_size() <= usize::MAX
        &&& T::layout_ok()
    }

    /// The storage image of `v`: tag `1` and the value's representation, or
    /// tag `0` and a zeroed payload slot.
    pub open spec fn image(v: Option<T>) -> Seq<u8> {
        match v {
            Some(x) => seq![1u8] + x.encoded(),
            None => seq![0u8] + zeros(T::spec_size()),
        }
    }

    /// The payload slot of storage image `b`.
    pub open spec fn payload_of(b: Seq<u8>) -> Seq<u8> {
        b.subrange(1, 1 + T::spec_size() as int)
    }

    /// The verdict on a storage image: it holds the tag and the payload
    /// slot, the tag is `0` or `1`, and a present value is valid.
    pub open spec fn spec_validate(b: Seq<u8>) -> Result<(), ZeroPodError> {
        if b.len() < 1 + T::spec_size() {
            Err(ZeroPodError::BufferTooSmall)
        } else if b[0] > 1 {
            Err(ZeroPodError::InvalidTag)
        } else if b[0] == 1 && T::spec_check(Self::payload_of(b)) is Some {
            Err(T::spec_check(Self::payload_of(b))->0)
        } else {
            Ok(())
        }
    }

    /// The value a valid storage image holds.
    pub open spec fn decode(b: Seq<u8>) -> Option<T> {
        if b[0] == 1 {
            Some(T::decoded(Self::payload_of(b)))
        } else {
            None
        }
    }

    /// The size of the storage image.
    pub fn size() -> (r: usize)
        requires
            Self::layout_ok(),
        ensures
            r == 1 + T::spec_size(),
    {
        1 + T::size()
    }

    /// Checks a storage image.
    pub fn validate(bytes: &[u8]) -> (r: Result<(), ZeroPodError>)
        requires
            Self::layout_ok(),
        ensures
            r == Self::spec_validate(bytes@),
    {
        let size = T::size();
        if bytes.len() < 1 + size {
            return Err(ZeroPodError::BufferTooSmall);
        }
        let tag = bytes[0];
        if tag > 1 {
            return Err(ZeroPodError::InvalidTag);
        }
        if tag == 1 {
            let payload = slice_subrange(bytes, 1, 1 + size);
            match T::check(payload) {
                Some(e) => {
                    return Err(e);
                },
                None => {},
            }
        }
        Ok(())
    }

    /// Reads a storage image after checking it.
    pub fn from_bytes(bytes: &[u8]) -> (r: Result<Self, ZeroPodError>)
        requires
            Self::layout_ok(),
        ensures
            r is Ok <==> Self::spec_validate(bytes@) is Ok,
            r matches Err(e) ==> Self::spec_validate(bytes@) == Err::<(), ZeroPodError>(e),
            r matches Ok(o) ==> o.view() == Self::decode(bytes@) && o.spec_tag() == bytes@[0],
    {
        match Self::validate(bytes) {
            Err(e) => Err(e),
            Ok(()) => {
                let size = T::size();
                if bytes[0] == 1 {
                    let payload = slice_subrange(bytes, 1, 1 + size);
                    Ok(Self::some(T::decode(payload)))
                } else {
                    Ok(Self::none())
                }
            },
        }
    }

    /// The storage image: the tag, then the value or, for an absent value,
    /// a zeroed payload slot.
    pub fn to_bytes(&self) -> (r: Vec<u8>)
        requires
            Self::layout_ok(),
        ensures
            r@ == Self::image(self.view()),
    {
        proof {
            use_type_invariant(self);
        }
        let mut out: Vec<u8> = Vec::new();
        out.push(self.tag);
        match self.value {
            Some(v) => {
                v.encode_into(&mut out);
                proof {
                    assert(out@ =~= seq![self.tag] + v.encoded());
                }
            },
            None => {
                let size = T::size();
                let mut i: usize = 0;
                while i < size
                    invariant
                        size == T::spec_size(),
                        i <= size,
                        out@ == seq![self.tag] + zeros(i as nat),
                    decreases size - i,
                {
                    out.push(0);
                    proof {
                        assert(zeros((i + 1) as nat) =~= zeros(i as nat).push(0u8));
                        assert(seq![self.tag] + zeros((i + 1) as nat) =~= (seq![self.tag] + zeros(
                            i as nat,
                        )).push(0u8));
                    }
                    i = i + 1;
                }
                proof {
                    assert(seq![self.tag] + zeros(0) =~= seq![self.tag]);
                }
            },
        }
        out
    }

    /// The storage image of any value passes the check and reads back as
    /// that value.
    pub proof fn law_image_roundtrip(v: Option<T>)
        requires
            Self::layout_ok(),
            v matches Some(x) ==> x.valid(),
        ensures
            Self::spec_validate(Self::image(v)) is Ok,
            Self::decode(Self::image(v)) == v,
    {
        let img = Self::image(v);
        match v {
            Some(x) => {
                T::lemma_codec(x);
                assert(Self::payload_of(img) =~= x.encoded());
            },
            None => {},
        }
    }
}

/// An option stored as an element: its storage image.
impl<T: ZcElem> ZcElem for PodOption<T> {
    open spec fn spec_size() -> nat {
        1 + T::spec_size()
    }

    open spec fn encoded(self) -> Seq<u8> {
        Self::image(self.view())
    }

    open spec fn spec_check(b: Seq<u8>) -> Option<ZeroPodError> {
        match Self::spec_validate(b) {
            Ok(_) => None,
            Err(e) => Some(e),
        }
    }

    closed spec fn decoded(b: Seq<u8>) -> Self {
        if b[0] == 1 {
            PodOption { tag: 1, value: Some(T::decoded(Self::payload_of(b))) }
        } else {
            PodOption { tag: 0, value: None }
        }
    }

    open spec fn layout_ok() -> bool {
        PodOption::<T>::layout_ok()
    }

    closed spec fn valid(self) -> bool {
        &&& self.slot_filled()
        &&& (self.value matches Some(x) ==> x.valid())
    }

    proof fn lemma_size(v: Self) {
        match v.view() {
            Some(x) => T::lemma_size(x),
            None => {},
        }
    }

    proof fn lemma_codec(v: Self) {
        Self::law_image_roundtrip(v.view());
        match v.view() {
            Some(x) => {
                T::lemma_size(x);
                assert(Self::payload_of(Self::image(v.view())) =~= x.encoded());
                T::lemma_codec(x);
            },
            None => {},
        }
    }

    fn assert_valid(&self) {
        proof {
            use_type_invariant(self);
        }
        match &self.value {
            Some(x) => x.assert_valid(),
            None => {},
        }
    }

    fn size() -> (r: usize) {
        Self::size()
    }

    fn encode_into(&self, out: &mut Vec<u8>) {
        let bytes = self.to_bytes();
        let ghost head = out@;
        let n = bytes.len();
        let mut i: usize = 0;
        while i < n
            invariant
                n == bytes@.len(),
                i <= n,
                out@ == head + bytes@.take(i as int),
            decreases n - i,
        {
            out.push(bytes[i]);
            proof {
                assert(bytes@.take(i + 1) =~= bytes@.take(i as int).push(bytes@[i as int]));
            }
            i = i + 1;
        }
        proof {
            assert(bytes@.take(n as int) =~= bytes@);
        }
    }

    fn check(b: &[u8]) -> (r: Option<ZeroPodError>) {
        match Self::validate(b) {
            Ok(()) => None,
            Err(e) => Some(e),
        }
    }

    fn decode(b: &[u8]) -> (r: Self) {
        let r = match Self::from_bytes(b) {
            Ok(o) => o,
            Err(_) => vstd::pervasive::unreached(),
        };
        proof {
            use_type_invariant(&r);
        }
        match &r.value {
            Some(x) => x.assert_valid(),
            None => {},
        }
        r
    }

    fn zeroed() -> (r: Self) {
        let r = Self::none();
        proof {
            use_type_invariant(&r);
            assert(Self::image(None) =~= zeros(1 + T::spec_size()));
        }
        r
    }
}

impl<T: Copy + PartialEq> PartialEq for PodOption<T> {
    /// Two options are equal when both are absent, or both are present with
    /// payloads that compare equal.
    fn eq(&self, other: &Self) -> (r: bool) {
        match (self.get(), other.get()) {
            (Some(a), Some(b)) => a == b,
            (None, None) => true,
            _ => false,
        }
    }
}

impl<T: Copy + PartialEq> vstd::std_specs::cmp::PartialEqSpecImpl for PodOption<T> {
    open spec fn obeys_eq_spec() -> bool {
        T::obeys_eq_spec()
    }

    open spec fn eq_spec(&self, other: &Self) -> bool {
        match (self.view(), other.view()) {
            (Some(a), Some(b)) => a.eq_spec(&b),
            (None, None) => true,
            _ => false,
        }
    }
}

impl<T: Copy + Eq> Eq for PodOption<T> {

}

impl<T: Copy + PartialEq> PartialEq<Option<T>> for PodOption<T> {
    /// Compares the stored value with an ordinary `Option`.
    fn eq(&self, other: &Option<T>) -> (r: bool) {
        match (self.get(), other) {
            (Some(a), Some(b)) => a == *b,
            (None, None) => true,
            _ => false,
        }
    }
}

impl<T: Copy + PartialEq> vstd::std_specs::cmp::PartialEqSpecImpl<Option<T>> for PodOption<T> {
    open spec fn obeys_eq_spec() -> bool {
        T::obeys_eq_spec()
    }

    open spec fn eq_spec(&self, other: &Option<T>) -> bool {
        match (self.view(), *other) {
            (Some(a), Some(b)) => a.eq_spec(&b),
            (None, None) => true,
            _ => false,
        }
    }
}

/// Equality of options is equality of what they hold: an absent option
/// equals an absent one and never a present one, in either order; and when
/// the payload type's equality is plain equality, two options are equal
/// exactly when their values are.
pub proof fn law_eq_is_value_equality<T: Copy + PartialEq>(a: PodOption<T>, b: PodOption<T>)
    ensures
        a.view() is None && b.view() is None ==> a.eq_spec(&b),
        a.view() is None && b.view() is Some ==> !a.eq_spec(&b) && !b.eq_spec(&a),
        (forall|x: T, y: T| #[trigger] x.eq_spec(&y) <==> x == y) ==> (a.eq_spec(&b) <==> a.view()
            == b.view()),
        (forall|x: T, y: T| #[trigger] x.eq_spec(&y) <==> y.eq_spec(&x)) ==> a.eq_spec(&b)
            == b.eq_spec(&a),
{
}

/// Comparing an option with an ordinary `Option` compares what it holds:
/// an absent option equals `None` and never `Some(_)`, and when the payload
/// type's equality is plain equality, it is equal exactly when it holds that
/// value.
pub proof fn law_eq_option_is_value_equality<T: Copy + PartialEq>(a: PodOption<T>, o: Option<T>)
    ensures
        a.view() is None ==> (a.eq_spec(&o) <==> o is None),
        a.view() is Some ==> (o is None ==> !a.eq_spec(&o)),
        (forall|x: T, y: T| #[trigger] x.eq_spec(&y) <==> x == y) ==> (a.eq_spec(&o) <==> a.view()
            == o),
{
}

} // verus!
