//! Fixed-capacity UTF-8 text with a little-endian length prefix.
use vstd::prelude::*;
use vstd::slice::slice_subrange;
use vstd::string::StringSliceAdditionalSpecFns;
use vstd::utf8::{
    encode_utf8_valid_utf8, is_char_boundary, is_char_boundary_iff_not_is_continuation_byte,
    is_char_boundary_start_end_of_seq, is_continuation_byte, valid_utf8, valid_utf8_concat,
    valid_utf8_split,
};
use crate::error::ZeroPodError;
use super::prefix::{
    le_bytes, le_value, lemma_le_bytes_len, lemma_le_roundtrip, pow256, push_le, read_len,
    valid_pfx,
};
use super::text::utf8_str;
use super::elem::ZcElem;

verus! {

/// `n` zero bytes.
pub open spec fn zeros(n: nat) -> Seq<u8> {
    Seq::new(n, |i: int| 0u8)
}

/// Zero encoded in any width is all zero bytes.
pub proof fn lemma_le_bytes_zero(w: nat)
    ensures
        le_bytes(0, w) == zeros(w),
    decreases w,
{
    if w > 0 {
        lemma_le_bytes_zero((w - 1) as nat);
        assert(le_bytes(0, w) =~= zeros(w));
    }
}

/// The largest character boundary of `s` at or below `n`.
pub open spec fn char_floor(s: Seq<u8>, n: int) -> int
    decreases n,
{
    if n >= s.len() {
        s.len() as int
    } else if n <= 0 {
        0
    } else if is_char_boundary(s, n) {
        n
    } else {
        char_floor(s, n - 1)
    }
}

/// `s` with the bytes from `at` on replaced by `t`.
fn spliced<const N: usize>(s: [u8; N], at: usize, t: &[u8]) -> (r: [u8; N])
    requires
        at + t@.len() <= N,
    ensures
        r@ == s@.subrange(0, at as int) + t@ + s@.subrange(at + t@.len(), N as int),
{
    let m = t.len();
    let mut r = s;
    let mut k: usize = 0;
    while k < m
        invariant
            m == t@.len(),
            at + m <= N,
            k <= m,
            r@.len() == N,
            s@.len() == N,
            forall|p: int| 0 <= p < N ==> #[trigger] r@[p] == (if at <= p < at + k {
                t@[p - at]
            } else {
                s@[p]
            }),
        decreases m - k,
    {
        r[at + k] = t[k];
        k = k + 1;
    }
    assert(r@ =~= s@.subrange(0, at as int) + t@ + s@.subrange(at + m, N as int));
    r
}

/// The `N` bytes of `b` from `at` on, as an array.
fn copy_array<const N: usize>(b: &[u8], at: usize) -> (r: [u8; N])
    requires
        at + N <= b@.len(),
    ensures
        r@ == b@.subrange(at as int, at + N),
{
    let mut r = [0u8; N];
    let bl = b.len();
    let mut k: usize = 0;
    while k < N
        invariant
            bl == b@.len(),
            at + N <= b@.len(),
            k <= N,
            r@.len() == N,
            forall|p: int| 0 <= p < k ==> #[trigger] r@[p] == b@[at + p],
        decreases N - k,
    {
        r[k] = b[at + k];
        k = k + 1;
    }
    assert(r@ =~= b@.subrange(at as int, at + N));
    r
}

/// Arrays with the contents `s`: the first `k` bytes of `s`, zeros after.
pub open spec fn array_of<const N: usize>(s: Seq<u8>, k: nat) -> [u8; N]
    decreases k,
{
    if k == 0 {
        vstd::array::spec_array_fill_for_copy_type::<u8, N>(0u8)
    } else {
        vstd::array::spec_array_update(array_of::<N>(s, (k - 1) as nat), k - 1, s[k - 1])
    }
}

pub proof fn lemma_array_of<const N: usize>(s: Seq<u8>, k: nat)
    requires
        k <= N,
    ensures
        array_of::<N>(s, k)@.len() == N,
        forall|p: int| 0 <= p < k ==> #[trigger] array_of::<N>(s, k)@[p] == s[p],
    decreases k,
{
    if k > 0 {
        lemma_array_of::<N>(s, (k - 1) as nat);
    }
}

/// The array whose contents are `s`.
pub open spec fn array_from<const N: usize>(s: Seq<u8>) -> [u8; N] {
    array_of::<N>(s, N as nat)
}

pub proof fn lemma_array_from<const N: usize>(s: Seq<u8>)
    requires
        s.len() == N,
    ensures
        array_from::<N>(s)@ == s,
{
    lemma_array_of::<N>(s, N as nat);
    assert(array_from::<N>(s)@ =~= s);
}

/// UTF-8 text of at most `N` bytes, stored as a `PFX`-byte length prefix
/// and an `N`-byte buffer. Bytes of the buffer past the length are not
/// part of the value.
#[derive(Clone, Copy)]
pub struct PodString<const N: usize, const PFX: usize> {
    len: usize,
    data: [u8; N],
}

impl<const N: usize, const PFX: usize> View for PodString<N, PFX> {
    type V = Seq<u8>;

    /// The bytes of the text.
    closed spec fn view(&self) -> Seq<u8> {
        self.data@.subrange(0, self.len as int)
    }
}

impl<const N: usize, const PFX: usize> PodString<N, PFX> {
    #[verifier::type_invariant]
    spec fn inv(self) -> bool {
        &&& self.data@.len() == N
        &&& self.len <= N
        &&& valid_utf8(self.data@.subrange(0, self.len as int))
    }

    /// The prefix width is one the layout accepts and can record `N`.
    pub open spec fn layout_ok() -> bool {
        &&& valid_pfx(PFX)
        &&& (N as nat) < pow256(PFX as nat)
        &&& PFX + N <= usize::MAX
    }

    /// The storage image of text `t`: prefix, text, zeroed spare capacity.
    pub open spec fn image(t: Seq<u8>) -> Seq<u8> {
        le_bytes(t.len(), PFX as nat) + t + zeros((N - t.len()) as nat)
    }

    /// The verdict on a storage image.
    pub open spec fn spec_validate(b: Seq<u8>) -> Result<(), ZeroPodError> {
        if b.len() < PFX + N {
            Err(ZeroPodError::BufferTooSmall)
        } else if le_value(b.subrange(0, PFX as int)) > N {
            Err(ZeroPodError::InvalidLength)
        } else if !valid_utf8(
            b.subrange(PFX as int, PFX + le_value(b.subrange(0, PFX as int))),
        ) {
            Err(ZeroPodError::InvalidUtf8)
        } else {
            Ok(())
        }
    }

    /// The text a valid storage image holds.
    pub open spec fn decode(b: Seq<u8>) -> Seq<u8> {
        b.subrange(PFX as int, PFX + le_value(b.subrange(0, PFX as int)))
    }

    /// The size of the storage image.
    pub fn size() -> (r: usize)
        requires
            PFX + N <= usize::MAX,
        ensures
            r == PFX + N,
    {
        PFX + N
    }

    pub fn capacity(&self) -> (r: usize)
        ensures
            r == N,
    {
        N
    }

    pub fn len(&self) -> (r: usize)
        ensures
            r == self@.len(),
            r <= N,
    {
        proof {
            use_type_invariant(self);
        }
        self.len
    }

    pub fn is_empty(&self) -> (r: bool)
        ensures
            r == (self@.len() == 0),
    {
        self.len() == 0
    }

    pub fn as_bytes(&self) -> (r: &[u8])
        ensures
            r@ == self@,
            valid_utf8(self@),
    {
        proof {
            use_type_invariant(self);
        }
        slice_subrange(self.data.as_slice(), 0, self.len)
    }

    pub fn as_str(&self) -> (r: &str)
        ensures
            r.spec_bytes() == self@,
    {
        match utf8_str(self.as_bytes()) {
            Some(s) => s,
            None => vstd::pervasive::unreached(),
        }
    }

    /// Replaces the text with `s`, or refuses with `Overflow` when it is
    /// longer than the capacity.
    pub fn try_set(&mut self, s: &str) -> (r: Result<(), ZeroPodError>)
        ensures
            s.spec_bytes().len() > N ==> r == Err::<(), ZeroPodError>(ZeroPodError::Overflow)
                && final(self)@ == old(self)@,
            s.spec_bytes().len() <= N ==> r is Ok && final(self)@ == s.spec_bytes(),
    {
        proof {
            use_type_invariant(&*self);
        }
        let b = s.as_bytes();
        if b.len() > N {
            return Err(ZeroPodError::Overflow);
        }
        proof {
            encode_utf8_valid_utf8(s@);
        }
        let data = spliced(self.data, 0, b);
        proof {
            assert(data@.subrange(0, b@.len() as int) =~= b@);
        }
        *self = PodString { len: b.len(), data };
        Ok(())
    }

    /// Replaces the text with `s` and says whether it fit.
    pub fn set(&mut self, s: &str) -> (r: bool)
        ensures
            r == (s.spec_bytes().len() <= N),
            r ==> final(self)@ == s.spec_bytes(),
            !r ==> final(self)@ == old(self)@,
    {
        self.try_set(s).is_ok()
    }

    /// Appends `s`, or refuses with `Overflow` when the result would not fit.
    pub fn try_push_str(&mut self, s: &str) -> (r: Result<(), ZeroPodError>)
        ensures
            old(self)@.len() + s.spec_bytes().len() > N ==> r == Err::<(), ZeroPodError>(
                ZeroPodError::Overflow,
            ) && final(self)@ == old(self)@,
            old(self)@.len() + s.spec_bytes().len() <= N ==> r is Ok && final(self)@ == old(self)@
                + s.spec_bytes(),
    {
        proof {
            use_type_invariant(&*self);
        }
        let b = s.as_bytes();
        if b.len() > N - self.len {
            return Err(ZeroPodError::Overflow);
        }
        proof {
            encode_utf8_valid_utf8(s@);
        }
        let ghost before = self@;
        let data = spliced(self.data, self.len, b);
        let len = self.len + b.len();
        proof {
            assert(data@.subrange(0, len as int) =~= before + b@);
            valid_utf8_concat(before, b@);
        }
        *self = PodString { len, data };
        Ok(())
    }

    /// Shortens the text to at most `n` bytes, cutting at the last
    /// character boundary at or below `n`.
    pub fn truncate(&mut self, n: usize)
        ensures
            final(self)@ == old(self)@.subrange(0, char_floor(old(self)@, n as int)),
    {
        proof {
            use_type_invariant(&*self);
        }
        let ghost v = self@;
        if n >= self.len {
            assert(v.subrange(0, v.len() as int) =~= v);
            return;
        }
        let mut k = n;
        while k > 0 && self.data[k] >= 0x80 && self.data[k] <= 0xbf
            invariant
                v == self@,
                valid_utf8(v),
                self.data@.len() == N,
                self.len <= N,
                self.len == v.len(),
                k <= n < v.len(),
                char_floor(v, n as int) == char_floor(v, k as int),
            decreases k,
        {
            proof {
                assert(v[k as int] == self.data@[k as int]);
                is_char_boundary_iff_not_is_continuation_byte(v, k as int);
            }
            k = k - 1;
        }
        proof {
            if k > 0 {
                assert(v[k as int] == self.data@[k as int]);
                assert(!is_continuation_byte(v[k as int]));
                is_char_boundary_iff_not_is_continuation_byte(v, k as int);
            } else {
                is_char_boundary_start_end_of_seq(v);
            }
            assert(char_floor(v, k as int) == k);
            valid_utf8_split(v, k as int);
            assert(self.data@.subrange(0, k as int) =~= v.subrange(0, k as int));
        }
        let data = spliced(self.data, 0, &[]);
        proof {
            assert(data@ =~= self.data@);
        }
        *self = PodString { len: k, data };
    }

    pub fn clear(&mut self)
        ensures
            final(self)@ == Seq::<u8>::empty(),
    {
        proof {
            use_type_invariant(&*self);
        }
        let data = spliced(self.data, 0, &[]);
        proof {
            assert(data@ =~= self.data@);
            assert(data@.subrange(0, 0) =~= Seq::<u8>::empty());
        }
        *self = PodString { len: 0, data };
    }

    /// The storage image: the length prefix, the text, then zeros up to
    /// the capacity, so that it depends on the text alone.
    pub fn to_bytes(&self) -> (r: Vec<u8>)
        requires
            Self::layout_ok(),
        ensures
            r@ == Self::image(self@),
    {
        proof {
            use_type_invariant(self);
        }
        let mut out: Vec<u8> = Vec::new();
        push_le(&mut out, self.len as u64, PFX);
        let ghost head = out@;
        let mut i: usize = 0;
        while i < N
            invariant
                self.data@.len() == N,
                self.len <= N,
                i <= N,
                out@.len() == head.len() + i,
                forall|k: int| 0 <= k < head.len() ==> #[trigger] out@[k] == head[k],
                forall|k: int|
                    0 <= k < i ==> #[trigger] out@[head.len() + k] == (if k < self.len {
                        self.data@[k]
                    } else {
                        0u8
                    }),
            decreases N - i,
        {
            if i < self.len {
                out.push(self.data[i]);
            } else {
                out.push(0);
            }
            i = i + 1;
        }
        proof {
            let img = Self::image(self@);
            assert forall|k: int| 0 <= k < out@.len() implies out@[k] == img[k] by {
                if k >= head.len() {
                    assert(out@[head.len() + (k - head.len())] == out@[k]);
                }
            }
            assert(out@ =~= img);
        }
        out
    }

    /// Checks a storage image: it holds the prefix and the buffer, the
    /// length is within capacity, and the text is UTF-8.
    pub fn validate(bytes: &[u8]) -> (r: Result<(), ZeroPodError>)
        requires
            Self::layout_ok(),
        ensures
            r == Self::spec_validate(bytes@),
    {
        if bytes.len() < PFX + N {
            return Err(ZeroPodError::BufferTooSmall);
        }
        let v = read_len(bytes, 0, PFX);
        if v > N as u64 {
            return Err(ZeroPodError::InvalidLength);
        }
        let text = slice_subrange(bytes, PFX, PFX + v as usize);
        if utf8_str(text).is_none() {
            return Err(ZeroPodError::InvalidUtf8);
        }
        Ok(())
    }

    /// Reads a storage image.
    pub fn from_bytes(bytes: &[u8]) -> (r: Result<Self, ZeroPodError>)
        requires
            Self::layout_ok(),
        ensures
            r is Ok <==> Self::spec_validate(bytes@) is Ok,
            r matches Err(e) ==> Self::spec_validate(bytes@) == Err::<(), ZeroPodError>(e),
            r matches Ok(s) ==> s@ == Self::decode(bytes@),
    {
        match Self::validate(bytes) {
            Err(e) => Err(e),
            Ok(()) => {
                let v = read_len(bytes, 0, PFX);
                let data = copy_array::<N>(bytes, PFX);
                proof {
                    assert(data@.subrange(0, v as int) =~= bytes@.subrange(
                        PFX as int,
                        PFX + v,
                    ));
                }
                Ok(PodString { len: v as usize, data })
            },
        }
    }

    /// The storage image of any text the string can hold reads back as
    /// that text.
    pub proof fn law_image_roundtrip(t: Seq<u8>)
        requires
            Self::layout_ok(),
            valid_utf8(t),
            t.len() <= N,
        ensures
            Self::spec_validate(Self::image(t)) is Ok,
            Self::decode(Self::image(t)) == t,
    {
        let img = Self::image(t);
        let lb = le_bytes(t.len(), PFX as nat);
        super::prefix::lemma_le_bytes_len(t.len(), PFX as nat);
        assert(img.subrange(0, PFX as int) =~= lb);
        super::prefix::lemma_le_roundtrip(t.len(), PFX as nat);
        assert(img.subrange(PFX as int, PFX + t.len()) =~= t);
    }
}

impl<const N: usize, const PFX: usize> Default for PodString<N, PFX> {
    fn default() -> (r: Self)
        ensures
            r@ == Seq::<u8>::empty(),
    {
        let data = [0u8; N];
        proof {
            assert(data@.subrange(0, 0) =~= Seq::<u8>::empty());
            assert(valid_utf8(Seq::<u8>::empty()));
        }
        PodString { len: 0, data }
    }
}

/// A string stored as an element: its length prefix, then its whole buffer
/// as it is held.
impl<const N: usize, const PFX: usize> ZcElem for PodString<N, PFX> {
    open spec fn spec_size() -> nat {
        (PFX + N) as nat
    }

    closed spec fn encoded(self) -> Seq<u8> {
        le_bytes(self.len as nat, PFX as nat) + self.data@
    }

    open spec fn spec_check(b: Seq<u8>) -> Option<ZeroPodError> {
        match Self::spec_validate(b) {
            Ok(_) => None,
            Err(e) => Some(e),
        }
    }

    closed spec fn decoded(b: Seq<u8>) -> Self {
        PodString {
            len: le_value(b.subrange(0, PFX as int)) as usize,
            data: array_from::<N>(b.subrange(PFX as int, PFX + N)),
        }
    }

    open spec fn layout_ok() -> bool {
        PodString::<N, PFX>::layout_ok()
    }

    closed spec fn valid(self) -> bool {
        self.inv()
    }

    proof fn lemma_size(v: Self) {
        lemma_le_bytes_len(v.len as nat, PFX as nat);
    }

    proof fn lemma_codec(v: Self) {
        let e = v.encoded();
        lemma_le_bytes_len(v.len as nat, PFX as nat);
        lemma_le_roundtrip(v.len as nat, PFX as nat);
        assert(e.subrange(0, PFX as int) =~= le_bytes(v.len as nat, PFX as nat));
        assert(e.subrange(PFX as int, PFX + N) =~= v.data@);
        assert(e.subrange(PFX as int, PFX + v.len) =~= v.data@.subrange(0, v.len as int));
        lemma_array_from::<N>(v.data@);
        let d = Self::decoded(e);
        assert(d.data =~= v.data);
    }

    fn assert_valid(&self) {
        proof {
            use_type_invariant(self);
        }
    }

    fn size() -> (r: usize) {
        PFX + N
    }

    fn encode_into(&self, out: &mut Vec<u8>) {
        let ghost head = out@;
        push_le(out, self.len as u64, PFX);
        let mut i: usize = 0;
        while i < N
            invariant
                i <= N,
                out@ == head + le_bytes(self.len as nat, PFX as nat) + self.data@.take(i as int),
            decreases N - i,
        {
            out.push(self.data[i]);
            proof {
                assert(self.data@.take(i + 1) =~= self.data@.take(i as int).push(
                    self.data@[i as int],
                ));
            }
            i = i + 1;
        }
        proof {
            assert(self.data@.take(N as int) =~= self.data@);
            assert(out@ =~= head + (le_bytes(self.len as nat, PFX as nat) + self.data@));
        }
    }

    fn check(b: &[u8]) -> (r: Option<ZeroPodError>) {
        match Self::validate(b) {
            Ok(()) => None,
            Err(e) => Some(e),
        }
    }

    fn decode(b: &[u8]) -> (r: Self) {
        let v = read_len(b, 0, PFX);
        let data = copy_array::<N>(b, PFX);
        proof {
            lemma_array_from::<N>(b@.subrange(PFX as int, PFX + N));
            assert(data =~= array_from::<N>(b@.subrange(PFX as int, PFX + N)));
            assert(data@.subrange(0, v as int) =~= b@.subrange(PFX as int, PFX + v));
        }
        PodString { len: v as usize, data }
    }

    fn zeroed() -> (r: Self) {
        let data = [0u8; N];
        proof {
            assert(data@.subrange(0, 0) =~= Seq::<u8>::empty());
            assert(valid_utf8(Seq::<u8>::empty()));
        }
        let r = PodString { len: 0, data };
        proof {
            lemma_le_bytes_zero(PFX as nat);
            assert(r.encoded() =~= zeros((PFX + N) as nat));
        }
        r
    }
}

} // verus!
