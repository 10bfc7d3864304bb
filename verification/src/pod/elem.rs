//! Element types that can be stored byte for byte in pod containers.
use vstd::prelude::*;
use crate::error::ZeroPodError;
use super::string::zeros;

verus! {

/// A value with a fixed-size byte representation that can be checked and
/// read back.
pub trait ZcElem: Copy + Sized {
    /// The number of bytes of the representation.
    spec fn spec_size() -> nat;

    /// The representation of `self`.
    spec fn encoded(self) -> Seq<u8>;

    /// Why `b` is not a representation, if it is not.
    spec fn spec_check(b: Seq<u8>) -> Option<ZeroPodError>;

    /// The value a valid representation stands for.
    spec fn decoded(b: Seq<u8>) -> Self;

    /// The type's parameters describe a layout that fits in memory.
    spec fn layout_ok() -> bool;

    /// The values the type's own invariant allows; every value that
    /// executable code holds is one of them.
    spec fn valid(self) -> bool;

    /// Every representation has the type's size.
    proof fn lemma_size(v: Self)
        requires
            Self::layout_ok(),
        ensures
            v.encoded().len() == Self::spec_size(),
    ;

    /// The representation of a valid value passes the check and reads back
    /// as that value.
    proof fn lemma_codec(v: Self)
        requires
            Self::layout_ok(),
            v.valid(),
        ensures
            v.encoded().len() == Self::spec_size(),
            Self::spec_check(v.encoded()) is None,
            Self::decoded(v.encoded()) == v,
    ;

    /// A value held by executable code is valid.
    fn assert_valid(&self)
        ensures
            self.valid(),
    ;

    fn size() -> (r: usize)
        requires
            Self::layout_ok(),
        ensures
            r == Self::spec_size(),
    ;

    fn encode_into(&self, out: &mut Vec<u8>)
        requires
            Self::layout_ok(),
        ensures
            final(out)@ == old(out)@ + self.encoded(),
    ;

    fn check(b: &[u8]) -> (r: Option<ZeroPodError>)
        requires
            Self::layout_ok(),
            b@.len() == Self::spec_size(),
        ensures
            r == Self::spec_check(b@),
    ;

    fn decode(b: &[u8]) -> (r: Self)
        requires
            Self::layout_ok(),
            b@.len() == Self::spec_size(),
            Self::spec_check(b@) is None,
        ensures
            r == Self::decoded(b@),
            r.valid(),
    ;

    /// The value whose representation is all zero bytes.
    fn zeroed() -> (r: Self)
        ensures
            r.encoded() == zeros(Self::spec_size()),
            r.valid(),
    ;
}

/// A single byte.
impl ZcElem for u8 {
    open spec fn spec_size() -> nat {
        1
    }

    open spec fn encoded(self) -> Seq<u8> {
        seq![self]
    }

    open spec fn spec_check(b: Seq<u8>) -> Option<ZeroPodError> {
        None
    }

    open spec fn decoded(b: Seq<u8>) -> Self {
        b[0]
    }

    open spec fn layout_ok() -> bool {
        true
    }

    open spec fn valid(self) -> bool {
        true
    }

    proof fn lemma_size(v: Self) {
    }

    fn assert_valid(&self) {
    }

    proof fn lemma_codec(v: Self) {
    }

    fn size() -> (r: usize) {
        1
    }

    fn zeroed() -> (r: Self) {
        assert(seq![0u8] =~= zeros(1));
        0
    }

    fn encode_into(&self, out: &mut Vec<u8>) {
        out.push(*self);
    }

    fn check(b: &[u8]) -> (r: Option<ZeroPodError>) {
        None
    }

    fn decode(b: &[u8]) -> (r: Self) {
        b[0]
    }
}

/// An empty byte array: a zero-sized element.
impl ZcElem for [u8; 0] {
    open spec fn spec_size() -> nat {
        0
    }

    open spec fn encoded(self) -> Seq<u8> {
        Seq::empty()
    }

    open spec fn spec_check(b: Seq<u8>) -> Option<ZeroPodError> {
        None
    }

    open spec fn decoded(b: Seq<u8>) -> Self {
        []
    }

    open spec fn layout_ok() -> bool {
        true
    }

    open spec fn valid(self) -> bool {
        true
    }

    proof fn lemma_size(v: Self) {
    }

    fn assert_valid(&self) {
    }

    proof fn lemma_codec(v: Self) {
        assert(v@ =~= Seq::<u8>::empty());
    }

    fn size() -> (r: usize) {
        0
    }

    fn zeroed() -> (r: Self) {
        assert(zeros(0) =~= Seq::<u8>::empty());
        []
    }

    fn encode_into(&self, out: &mut Vec<u8>) {
        assert(out@ + Seq::<u8>::empty() =~= out@);
    }

    fn check(b: &[u8]) -> (r: Option<ZeroPodError>) {
        None
    }

    fn decode(b: &[u8]) -> (r: Self) {
        []
    }
}

/// A boolean stored as one byte, 0 or 1.
#[derive(Clone, Copy, Debug, PartialEq, Eq, Structural)]
pub struct PodBool {
    value: bool,
}

impl PodBool {
    pub closed spec fn spec_get(self) -> bool {
        self.value
    }

    pub fn new(b: bool) -> (r: Self)
        ensures
            r.spec_get() == b,
    {
        PodBool { value: b }
    }

    pub fn get(&self) -> (r: bool)
        ensures
            r == self.spec_get(),
    {
        self.value
    }
}

/// A boolean is stored as the byte 1 when true and 0 when false; of the
/// one-byte images exactly these two pass the check, and each reads back as
/// the boolean it stands for.
pub proof fn law_bool_bytes(v: PodBool, b: u8)
    ensures
        v.encoded() == seq![if v.spec_get() { 1u8 } else { 0u8 }],
        PodBool::spec_check(seq![b]) is None <==> b <= 1,
        b <= 1 ==> PodBool::decoded(seq![b]).spec_get() == (b == 1),
        PodBool::decoded(seq![1u8]).spec_get(),
        !PodBool::decoded(seq![0u8]).spec_get(),
{
}

impl ZcElem for PodBool {
    open spec fn spec_size() -> nat {
        1
    }

    closed spec fn encoded(self) -> Seq<u8> {
        seq![if self.value { 1u8 } else { 0u8 }]
    }

    open spec fn spec_check(b: Seq<u8>) -> Option<ZeroPodError> {
        if b[0] <= 1 {
            None
        } else {
            Some(ZeroPodError::InvalidBool)
        }
    }

    closed spec fn decoded(b: Seq<u8>) -> Self {
        PodBool { value: b[0] == 1 }
    }

    open spec fn layout_ok() -> bool {
        true
    }

    open spec fn valid(self) -> bool {
        true
    }

    proof fn lemma_size(v: Self) {
    }

    fn assert_valid(&self) {
    }

    proof fn lemma_codec(v: Self) {
    }

    fn size() -> (r: usize) {
        1
    }

    fn zeroed() -> (r: Self)
        ensures
            !r.spec_get(),
    {
        assert(seq![0u8] =~= zeros(1));
        PodBool { value: false }
    }

    fn encode_into(&self, out: &mut Vec<u8>)
        ensures
            final(out)@ == old(out)@.push(if self.spec_get() { 1u8 } else { 0u8 }),
    {
        out.push(if self.value { 1 } else { 0 });
    }

    fn check(b: &[u8]) -> (r: Option<ZeroPodError>) {
        if b[0] <= 1 {
            None
        } else {
            Some(ZeroPodError::InvalidBool)
        }
    }

    fn decode(b: &[u8]) -> (r: Self)
        ensures
            r.spec_get() == (b@[0] == 1),
    {
        PodBool { value: b[0] == 1 }
    }
}

} // verus!
