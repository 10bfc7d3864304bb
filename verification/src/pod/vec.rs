//! A fixed-capacity vector of pod elements with a little-endian length prefix.
use vstd::prelude::*;
use vstd::slice::slice_subrange;
use crate::error::ZeroPodError;
use crate::compact::model::first_err;
use crate::compact::lemmas::{lemma_first_err_hit, lemma_first_err_none};
use super::elem::ZcElem;
use super::prefix::{le_bytes, le_value, lemma_le_bytes_len, lemma_le_roundtrip, pow256, push_le, read_len, valid_pfx};
use super::string::{lemma_le_bytes_zero, zeros};

verus! {

/// The representations of `s`, one after another.
pub open spec fn encode_all<T: ZcElem>(s: Seq<T>) -> Seq<u8>
    decreases s.len(),
{
    if s.len() == 0 {
        Seq::empty()
    } else {
        encode_all(s.drop_last()) + s.last().encoded()
    }
}

pub proof fn lemma_encode_all<T: ZcElem>(s: Seq<T>)
    requires
        T::layout_ok(),
    ensures
        encode_all(s).len() == s.len() * T::spec_size(),
        forall|i: int|
            #![trigger s[i]]
            0 <= i < s.len() ==> encode_all(s).subrange(
                i * T::spec_size(),
                (i + 1) * T::spec_size(),
            ) == s[i].encoded(),
    decreases s.len(),
{
    let z = T::spec_size() as int;
    if s.len() > 0 {
        let p = s.drop_last();
        lemma_encode_all(p);
        T::lemma_size(s.last());
        let n = p.len() as int;
        assert((n + 1) * z == n * z + z) by (nonlinear_arith);
        assert forall|i: int| #![trigger s[i]] 0 <= i < s.len() implies encode_all(s).subrange(
            i * z,
            (i + 1) * z,
        ) == s[i].encoded() by {
            assert((i + 1) * z == i * z + z) by (nonlinear_arith);
            if i < n {
                assert(i * z + z <= n * z) by (nonlinear_arith)
                    requires i < n, z >= 0;
                assert(0 <= i * z) by (nonlinear_arith)
                    requires i >= 0, z >= 0;
                assert(p[i] == s[i]);
                assert(encode_all(s).subrange(i * z, (i + 1) * z) =~= encode_all(p).subrange(
                    i * z,
                    (i + 1) * z,
                ));
            } else {
                assert(encode_all(s).subrange(i * z, (i + 1) * z) =~= s.last().encoded());
            }
        }
    } else {
        assert(0 * z == 0) by (nonlinear_arith);
    }
}

/// The elements of `s` whose flag in `keep` is set, in their order.
pub open spec fn kept<T>(s: Seq<T>, keep: Seq<bool>) -> Seq<T>
    decreases s.len(),
{
    if s.len() == 0 {
        Seq::empty()
    } else {
        let front = kept(s.drop_last(), keep.take(s.len() - 1));
        if keep[s.len() - 1] {
            front.push(s.last())
        } else {
            front
        }
    }
}

proof fn lemma_kept_len<T>(s: Seq<T>, keep: Seq<bool>)
    ensures
        kept(s, keep).len() <= s.len(),
    decreases s.len(),
{
    if s.len() > 0 {
        lemma_kept_len(s.drop_last(), keep.take(s.len() - 1));
    }
}

/// The element whose representation is all zero bytes.
pub open spec fn zero_elem<T: ZcElem>() -> T {
    T::decoded(zeros(T::spec_size()))
}

/// A valid element with an all-zero representation is the zero element.
pub proof fn lemma_zero_elem<T: ZcElem>(z: T)
    requires
        T::layout_ok(),
        z.valid(),
        z.encoded() == zeros(T::spec_size()),
    ensures
        z == zero_elem::<T>(),
{
    T::lemma_codec(z);
}

/// At most `N` elements, stored as a `PFX`-byte length prefix and room
/// for `N` element representations.
#[derive(Copy)]
pub struct PodVec<T: ZcElem, const N: usize, const PFX: usize> {
    len: usize,
    items: [T; N],
}

impl<T: ZcElem, const N: usize, const PFX: usize> View for PodVec<T, N, PFX> {
    type V = Seq<T>;

    closed spec fn view(&self) -> Seq<T> {
        self.items@.subrange(0, self.len as int)
    }
}

impl<T: ZcElem, const N: usize, const PFX: usize> PodVec<T, N, PFX> {
    #[verifier::type_invariant]
    spec fn within_capacity(self) -> bool {
        self.holds_slots()
    }

    /// At most `N` elements, each valid; the spare slots hold the zero
    /// element.
    spec fn holds_slots(self) -> bool {
        &&& self.len <= N
        &&& self.items@.len() == N
        &&& forall|i: int| 0 <= i < N ==> (#[trigger] self.items@[i]).valid()
        &&& forall|i: int|
            self.len <= i < N ==> (#[trigger] self.items@[i]).encoded() == zeros(T::spec_size())
    }

    /// The elements, as a `Vec`.
    fn items_vec(&self) -> (r: Vec<T>)
        ensures
            r@ == self@,
            r@.len() <= N,
    {
        proof {
            use_type_invariant(self);
        }
        let n = self.len;
        let mut v: Vec<T> = Vec::new();
        let mut i: usize = 0;
        while i < n
            invariant
                n == self.len,
                n <= N,
                self.items@.len() == N,
                i <= n,
                v@ == self.items@.subrange(0, i as int),
            decreases n - i,
        {
            v.push(self.items[i]);
            proof {
                assert(self.items@.subrange(0, i + 1) =~= self.items@.subrange(0, i as int).push(
                    self.items@[i as int],
                ));
            }
            i = i + 1;
        }
        v
    }

    /// The vector holding `items`, with zero elements in the spare slots.
    fn from_items(items: &Vec<T>) -> (r: Self)
        requires
            items@.len() <= N,
        ensures
            r@ == items@,
            r.len == items@.len(),
            forall|p: int|
                items@.len() <= p < N ==> (#[trigger] r.items@[p]).valid() && r.items@[p].encoded()
                    == zeros(T::spec_size()),
    {
        let z = T::zeroed();
        let mut arr = [z; N];
        let n = items.len();
        let mut k: usize = 0;
        while k < n
            invariant
                n == items@.len(),
                n <= N,
                k <= n,
                arr@.len() == N,
                z.valid(),
                z.encoded() == zeros(T::spec_size()),
                forall|p: int| 0 <= p < k ==> #[trigger] arr@[p] == items@[p],
                forall|p: int| 0 <= p < k ==> (#[trigger] arr@[p]).valid(),
                forall|p: int| k <= p < N ==> #[trigger] arr@[p] == z,
            decreases n - k,
        {
            let x = items[k];
            x.assert_valid();
            arr[k] = x;
            k = k + 1;
        }
        let r = PodVec { len: n, items: arr };
        assert(r@ =~= items@);
        r
    }

    /// The prefix width is one the layout accepts, it can record `N`, and
    /// the storage image fits in memory.
    pub open spec fn layout_ok() -> bool {
        &&& valid_pfx(PFX)
        &&& (N as nat) < pow256(PFX as nat)
        &&& PFX + N * T::spec_size() <= usize::MAX
        &&& T::layout_ok()
    }

    /// The storage image of `s`: prefix, elements, zeroed spare capacity.
    pub open spec fn image(s: Seq<T>) -> Seq<u8> {
        le_bytes(s.len(), PFX as nat) + encode_all(s) + zeros(
            ((N - s.len()) * T::spec_size()) as nat,
        )
    }

    pub open spec fn count_of(b: Seq<u8>) -> nat {
        le_value(b.subrange(0, PFX as int))
    }

    /// The bytes of element `i` in storage image `b`.
    pub open spec fn elem_bytes(b: Seq<u8>, i: int) -> Seq<u8> {
        b.subrange(PFX + i * T::spec_size(), PFX + (i + 1) * T::spec_size())
    }

    pub open spec fn elem_errs(b: Seq<u8>) -> spec_fn(int) -> Option<ZeroPodError> {
        |i: int| T::spec_check(Self::elem_bytes(b, i))
    }

    /// The verdict on a storage image: it holds the prefix and room for
    /// `N` elements, the length is within capacity, and each element is valid.
    pub open spec fn spec_validate(b: Seq<u8>) -> Result<(), ZeroPodError> {
        if b.len() < PFX + N * T::spec_size() {
            Err(ZeroPodError::BufferTooSmall)
        } else if Self::count_of(b) > N {
            Err(ZeroPodError::InvalidLength)
        } else if let Some(e) = first_err(Self::elem_errs(b), 0, Self::count_of(b) as int) {
            Err(e)
        } else {
            Ok(())
        }
    }

    /// The elements a valid storage image holds.
    pub open spec fn decode(b: Seq<u8>) -> Seq<T> {
        Seq::new(Self::count_of(b), |i: int| T::decoded(Self::elem_bytes(b, i)))
    }

    /// The size of the storage image.
    pub fn size() -> (r: usize)
        requires
            Self::layout_ok(),
        ensures
            r == PFX + N * T::spec_size(),
    {
        let size = T::size();
        PFX + N * size
    }

    pub fn capacity(&self) -> (r: usize)
        ensures
            r == N,
    {
        N
    }

    pub fn len(&self) -> (r: usize)
        ensures
            r == self@.len(),
            r <= N,
    {
        proof {
            use_type_invariant(self);
        }
        self.len
    }

    pub fn is_empty(&self) -> (r: bool)
        ensures
            r == (self@.len() == 0),
    {
        self.len() == 0
    }

    pub fn as_slice(&self) -> (r: &[T])
        ensures
            r@ == self@,
    {
        proof {
            use_type_invariant(self);
        }
        slice_subrange(self.items.as_slice(), 0, self.len)
    }

    pub fn get(&self, i: usize) -> (r: Option<&T>)
        ensures
            i < self@.len() ==> r == Some(&self@[i as int]),
            i >= self@.len() ==> r is None,
    {
        proof {
            use_type_invariant(self);
        }
        if i < self.len {
            Some(&self.items[i])
        } else {
            None
        }
    }

    /// Replaces element `i` with `v`, or says `false`, changing nothing,
    /// past the length.
    pub fn set(&mut self, i: usize, v: T) -> (r: bool)
        ensures
            r == (i < old(self)@.len()),
            r ==> final(self)@ == old(self)@.update(i as int, v),
            !r ==> final(self)@ == old(self)@,
    {
        let mut items = self.items_vec();
        if i >= items.len() {
            return false;
        }
        items.set(i, v);
        *self = Self::from_items(&items);
        true
    }

    /// Appends `v`, or refuses with `Overflow` when the vector is full.
    pub fn try_push(&mut self, v: T) -> (r: Result<(), ZeroPodError>)
        ensures
            old(self)@.len() < N ==> r is Ok && final(self)@ == old(self)@.push(v),
            old(self)@.len() >= N ==> r == Err::<(), ZeroPodError>(ZeroPodError::Overflow)
                && final(self)@ == old(self)@,
    {
        let mut items = self.items_vec();
        if items.len() >= N {
            return Err(ZeroPodError::Overflow);
        }
        items.push(v);
        *self = Self::from_items(&items);
        Ok(())
    }

    /// Appends `v` and says whether there was room.
    pub fn push(&mut self, v: T) -> (r: bool)
        ensures
            r == (old(self)@.len() < N),
            r ==> final(self)@ == old(self)@.push(v),
            !r ==> final(self)@ == old(self)@,
    {
        self.try_push(v).is_ok()
    }

    /// Appends all of `s`, or refuses with `Overflow`, changing nothing,
    /// when they do not all fit.
    pub fn try_extend_from_slice(&mut self, s: &[T]) -> (r: Result<(), ZeroPodError>)
        ensures
            old(self)@.len() + s@.len() <= N ==> r is Ok && final(self)@ == old(self)@ + s@,
            old(self)@.len() + s@.len() > N ==> r == Err::<(), ZeroPodError>(
                ZeroPodError::Overflow,
            ) && final(self)@ == old(self)@,
    {
        proof {
            use_type_invariant(&*self);
        }
        let mut items = self.items_vec();
        if s.len() > N - items.len() {
            return Err(ZeroPodError::Overflow);
        }
        let ghost start = items@;
        let n = s.len();
        let mut k: usize = 0;
        while k < n
            invariant
                n == s@.len(),
                start.len() + n <= N,
                k <= n,
                items@ == start + s@.take(k as int),
            decreases n - k,
        {
            items.push(s[k]);
            proof {
                assert(s@.take(k + 1) =~= s@.take(k as int).push(s@[k as int]));
            }
            k = k + 1;
        }
        proof {
            assert(s@.take(n as int) =~= s@);
        }
        *self = Self::from_items(&items);
        Ok(())
    }

    /// Replaces the contents with `s`, or refuses with `Overflow`, changing
    /// nothing, when `s` does not fit.
    pub fn try_set_from_slice(&mut self, s: &[T]) -> (r: Result<(), ZeroPodError>)
        ensures
            s@.len() <= N ==> r is Ok && final(self)@ == s@,
            s@.len() > N ==> r == Err::<(), ZeroPodError>(ZeroPodError::Overflow)
                && final(self)@ == old(self)@,
    {
        if s.len() > N {
            return Err(ZeroPodError::Overflow);
        }
        let mut fresh: Self = Self::from_items(&Vec::new());
        let r = fresh.try_extend_from_slice(s);
        proof {
            assert(Seq::<T>::empty() + s@ =~= s@);
        }
        *self = fresh;
        r
    }

    pub fn pop(&mut self) -> (r: Option<T>)
        ensures
            old(self)@.len() == 0 ==> r is None && final(self)@ == old(self)@,
            old(self)@.len() > 0 ==> r == Some(old(self)@.last()) && final(self)@ == old(
                self,
            )@.drop_last(),
    {
        proof {
            use_type_invariant(&*self);
        }
        let mut items = self.items_vec();
        let r = items.pop();
        *self = Self::from_items(&items);
        r
    }

    /// Removes and returns element `i`, shifting the later ones down.
    pub fn remove(&mut self, i: usize) -> (r: Option<T>)
        ensures
            i >= old(self)@.len() ==> r is None && final(self)@ == old(self)@,
            i < old(self)@.len() ==> r == Some(old(self)@[i as int]) && final(self)@ == old(
                self,
            )@.remove(i as int),
    {
        proof {
            use_type_invariant(&*self);
        }
        let mut items = self.items_vec();
        if i >= items.len() {
            return None;
        }
        let r = items.remove(i);
        *self = Self::from_items(&items);
        Some(r)
    }

    /// Removes and returns element `i`, moving the last element into its place.
    pub fn swap_remove(&mut self, i: usize) -> (r: Option<T>)
        ensures
            i >= old(self)@.len() ==> r is None && final(self)@ == old(self)@,
            i < old(self)@.len() ==> r == Some(old(self)@[i as int]) && final(self)@ == old(
                self,
            )@.update(i as int, old(self)@.last()).drop_last(),
    {
        proof {
            use_type_invariant(&*self);
        }
        let mut items = self.items_vec();
        if i >= items.len() {
            return None;
        }
        let r = items.swap_remove(i);
        *self = Self::from_items(&items);
        Some(r)
    }

    /// Keeps the elements for which `f` returns `true`, in their order.
    pub fn retain<F: Fn(&T) -> bool>(&mut self, f: F)
        requires
            forall|i: int| 0 <= i < old(self)@.len() ==> f.requires((&old(self)@[i],)),
        ensures
            exists|keep: Seq<bool>|
                {
                    &&& keep.len() == old(self)@.len()
                    &&& forall|i: int|
                        0 <= i < keep.len() ==> f.ensures((&old(self)@[i],), #[trigger] keep[i])
                    &&& final(self)@ == kept(old(self)@, keep)
                },
    {
        proof {
            use_type_invariant(&*self);
        }
        let ghost start = self@;
        assert(start == old(self)@);
        let mut items = self.items_vec();
        let mut out: Vec<T> = Vec::new();
        let ghost mut keep: Seq<bool> = Seq::empty();
        let n = items.len();
        let mut k: usize = 0;
        while k < n
            invariant
                n == start.len(),
                items@ == start,
                n <= N,
                k <= n,
                keep.len() == k,
                forall|i: int| 0 <= i < n ==> f.requires((&start[i],)),
                forall|i: int| 0 <= i < k ==> f.ensures((&start[i],), #[trigger] keep[i]),
                out@ == kept(start.take(k as int), keep),
                out@.len() <= k,
            decreases n - k,
        {
            let x = &items[k];
            let b = f(x);
            let ghost prev = keep;
            proof {
                keep = keep.push(b);
                let t = start.take(k + 1);
                assert(t.drop_last() =~= start.take(k as int));
                assert(keep.take(k as int) =~= prev);
                lemma_kept_len(start.take(k as int), prev);
            }
            if b {
                out.push(*x);
            }
            k = k + 1;
        }
        proof {
            assert(start.take(n as int) =~= start);
            lemma_kept_len(start, keep);
        }
        *self = Self::from_items(&out);
    }

    pub fn truncate(&mut self, n: usize)
        ensures
            n < old(self)@.len() ==> final(self)@ == old(self)@.take(n as int),
            n >= old(self)@.len() ==> final(self)@ == old(self)@,
    {
        proof {
            use_type_invariant(&*self);
        }
        let mut items = self.items_vec();
        items.truncate(n);
        *self = Self::from_items(&items);
    }

    pub fn clear(&mut self)
        ensures
            final(self)@ == Seq::<T>::empty(),
    {
        *self = Self::from_items(&Vec::new());
    }

    /// The storage image: the length prefix, the elements, then zeros up
    /// to the capacity, so that it depends on the elements alone.
    pub fn to_bytes(&self) -> (r: Vec<u8>)
        requires
            Self::layout_ok(),
        ensures
            r@ == Self::image(self@),
    {
        proof {
            use_type_invariant(self);
        }
        let items = self.items_vec();
        let mut out: Vec<u8> = Vec::new();
        let len = items.len();
        push_le(&mut out, len as u64, PFX);
        let ghost head = out@;
        let mut i: usize = 0;
        while i < len
            invariant
                len == self@.len(),
                items@ == self@,
                T::layout_ok(),
                i <= len,
                out@ == head + encode_all(self@.take(i as int)),
            decreases len - i,
        {
            items[i].encode_into(&mut out);
            proof {
                assert(self@.take(i + 1).drop_last() =~= self@.take(i as int));
            }
            i = i + 1;
        }
        proof {
            assert(self@.take(len as int) =~= self@);
        }
        let ghost body = out@;
        let size = T::size();
        proof {
            assert((N - len) * size <= N * size) by (nonlinear_arith)
                requires len <= N;
        }
        let pad = (N - len) * size;
        let mut k: usize = 0;
        while k < pad
            invariant
                k <= pad,
                out@ == body + zeros(k as nat),
            decreases pad - k,
        {
            out.push(0);
            proof {
                assert(zeros((k + 1) as nat) =~= zeros(k as nat).push(0u8));
            }
            k = k + 1;
        }
        out
    }

    /// Checks a storage image.
    pub fn validate(bytes: &[u8]) -> (r: Result<(), ZeroPodError>)
        requires
            Self::layout_ok(),
        ensures
            r == Self::spec_validate(bytes@),
    {
        let size = T::size();
        let total = PFX + N * size;
        if bytes.len() < total {
            return Err(ZeroPodError::BufferTooSmall);
        }
        let v = read_len(bytes, 0, PFX);
        if v > N as u64 {
            return Err(ZeroPodError::InvalidLength);
        }
        let count = v as usize;
        let ghost b = bytes@;
        let blen = bytes.len();
        let mut i: usize = 0;
        let mut off: usize = PFX;
        while i < count
            invariant
                b == bytes@,
                blen == b.len(),
                size == T::spec_size(),
                T::layout_ok(),
                count <= N,
                count == Self::count_of(b),
                PFX + N * size <= b.len(),
                i <= count,
                off == PFX + i * size,
                forall|j: int| 0 <= j < i ==> (#[trigger] Self::elem_errs(b)(j)) is None,
            decreases count - i,
        {
            proof {
                assert(PFX + (i + 1) * size <= PFX + N * size) by (nonlinear_arith)
                    requires i < N;
                assert((i + 1) * size == i * size + size) by (nonlinear_arith);
            }
            let eb = slice_subrange(bytes, off, off + size);
            let e = T::check(eb);
            if let Some(err) = e {
                proof {
                    lemma_first_err_hit(Self::elem_errs(b), 0, i as int, count as int);
                }
                return Err(err);
            }
            off = off + size;
            i = i + 1;
        }
        proof {
            lemma_first_err_none(Self::elem_errs(b), 0, count as int);
        }
        Ok(())
    }

    /// Reads a storage image.
    pub fn from_bytes(bytes: &[u8]) -> (r: Result<Self, ZeroPodError>)
        requires
            Self::layout_ok(),
        ensures
            r is Ok <==> Self::spec_validate(bytes@) is Ok,
            r matches Err(e) ==> Self::spec_validate(bytes@) == Err::<(), ZeroPodError>(e),
            r matches Ok(v) ==> v@ == Self::decode(bytes@),
    {
        if let Err(e) = Self::validate(bytes) {
            return Err(e);
        }
        let ghost b = bytes@;
        let size = T::size();
        let count = read_len(bytes, 0, PFX) as usize;
        proof {
            crate::compact::lemmas::lemma_first_err_none_all(Self::elem_errs(b), 0, count as int);
        }
        let mut items: Vec<T> = Vec::new();
        let blen = bytes.len();
        let mut i: usize = 0;
        let mut off: usize = PFX;
        while i < count
            invariant
                b == bytes@,
                blen == b.len(),
                size == T::spec_size(),
                T::layout_ok(),
                count <= N,
                count == Self::count_of(b),
                PFX + N * size <= b.len(),
                forall|j: int| 0 <= j < count ==> (#[trigger] Self::elem_errs(b)(j)) is None,
                i <= count,
                off == PFX + i * size,
                items@ == Self::decode(b).take(i as int),
            decreases count - i,
        {
            proof {
                assert(PFX + (i + 1) * size <= PFX + N * size) by (nonlinear_arith)
                    requires i < N;
                assert((i + 1) * size == i * size + size) by (nonlinear_arith);
                assert(Self::elem_errs(b)(i as int) is None);
            }
            let eb = slice_subrange(bytes, off, off + size);
            items.push(T::decode(eb));
            proof {
                assert(Self::decode(b).take(i + 1) =~= Self::decode(b).take(i as int).push(
                    Self::decode(b)[i as int],
                ));
            }
            off = off + size;
            i = i + 1;
        }
        proof {
            assert(Self::decode(b).take(count as int) =~= Self::decode(b));
        }
        Ok(Self::from_items(&items))
    }

    /// The storage image of any elements the vector can hold reads back as
    /// those elements.
    pub proof fn law_image_roundtrip(s: Seq<T>)
        requires
            Self::layout_ok(),
            s.len() <= N,
            forall|i: int| 0 <= i < s.len() ==> (#[trigger] s[i]).valid(),
        ensures
            Self::spec_validate(Self::image(s)) is Ok,
            Self::decode(Self::image(s)) == s,
    {
        let img = Self::image(s);
        let z = T::spec_size() as int;
        let lb = le_bytes(s.len(), PFX as nat);
        let body = encode_all(s);
        lemma_le_bytes_len(s.len(), PFX as nat);
        lemma_encode_all(s);
        lemma_le_roundtrip(s.len(), PFX as nat);
        assert(img.subrange(0, PFX as int) =~= lb);
        assert(Self::count_of(img) == s.len());
        let n = s.len() as int;
        assert((N - n) * z + n * z == N * z) by (nonlinear_arith);
        assert(img.len() == PFX + N * z);
        assert forall|i: int| 0 <= i < n implies Self::elem_bytes(img, i) == s[i].encoded() by {
            assert((i + 1) * z == i * z + z) by (nonlinear_arith);
            assert(i * z + z <= n * z) by (nonlinear_arith)
                requires i < n, z >= 0;
            assert(0 <= i * z) by (nonlinear_arith)
                requires i >= 0, z >= 0;
            assert(Self::elem_bytes(img, i) =~= body.subrange(i * z, (i + 1) * z));
            assert(s[i] == s[i]);
        }
        assert forall|j: int| 0 <= j < n implies (#[trigger] Self::elem_errs(img)(j)) is None by {
            T::lemma_codec(s[j]);
            assert(Self::elem_bytes(img, j) == s[j].encoded());
        }
        lemma_first_err_none(Self::elem_errs(img), 0, n);
        assert forall|i: int| 0 <= i < n implies #[trigger] Self::decode(img)[i] == s[i] by {
            T::lemma_codec(s[i]);
            assert(Self::elem_bytes(img, i) == s[i].encoded());
        }
        assert(Self::decode(img) =~= s);
    }
}

impl<T: ZcElem, const N: usize, const PFX: usize> Default for PodVec<T, N, PFX> {
    fn default() -> (r: Self)
        ensures
            r@ == Seq::<T>::empty(),
    {
        Self::from_items(&Vec::new())
    }
}

/// An array holding the first `k` elements of `s`, then zero elements.
pub open spec fn items_of<T: ZcElem, const N: usize>(s: Seq<T>, k: nat) -> [T; N]
    decreases k,
{
    if k == 0 {
        vstd::array::spec_array_fill_for_copy_type::<T, N>(zero_elem::<T>())
    } else {
        vstd::array::spec_array_update(items_of::<T, N>(s, (k - 1) as nat), k - 1, s[k - 1])
    }
}

proof fn lemma_items_of<T: ZcElem, const N: usize>(s: Seq<T>, k: nat)
    requires
        k <= N,
    ensures
        items_of::<T, N>(s, k)@.len() == N,
        forall|p: int| 0 <= p < k ==> #[trigger] items_of::<T, N>(s, k)@[p] == s[p],
    decreases k,
{
    if k > 0 {
        lemma_items_of::<T, N>(s, (k - 1) as nat);
    }
}

/// Elements that all encode as zero bytes encode together as zero bytes.
proof fn lemma_encode_all_zeros<T: ZcElem>(s: Seq<T>)
    requires
        forall|i: int| 0 <= i < s.len() ==> (#[trigger] s[i]).encoded() == zeros(T::spec_size()),
    ensures
        encode_all(s) == zeros(s.len() * T::spec_size()),
    decreases s.len(),
{
    if s.len() > 0 {
        let p = s.drop_last();
        lemma_encode_all_zeros(p);
        assert(s.last() == s[s.len() - 1]);
        let z = T::spec_size();
        assert(p.len() * z + z == s.len() * z) by (nonlinear_arith)
            requires p.len() + 1 == s.len();
        assert(encode_all(s) =~= zeros(s.len() * z));
    }
}

/// A vector stored as an element: its length prefix, its elements, then
/// zero elements up to the capacity.
impl<T: ZcElem, const N: usize, const PFX: usize> ZcElem for PodVec<T, N, PFX> {
    open spec fn spec_size() -> nat {
        (PFX + N * T::spec_size()) as nat
    }

    closed spec fn encoded(self) -> Seq<u8> {
        le_bytes(self.len as nat, PFX as nat) + encode_all(self.items@)
    }

    open spec fn spec_check(b: Seq<u8>) -> Option<ZeroPodError> {
        match Self::spec_validate(b) {
            Ok(_) => None,
            Err(e) => Some(e),
        }
    }

    closed spec fn decoded(b: Seq<u8>) -> Self {
        PodVec {
            len: Self::count_of(b) as usize,
            items: items_of::<T, N>(
                Seq::new(
                    N as nat,
                    |i: int|
                        if i < Self::count_of(b) {
                            T::decoded(Self::elem_bytes(b, i))
                        } else {
                            zero_elem::<T>()
                        },
                ),
                N as nat,
            ),
        }
    }

    open spec fn layout_ok() -> bool {
        PodVec::<T, N, PFX>::layout_ok()
    }

    closed spec fn valid(self) -> bool {
        self.holds_slots()
    }

    proof fn lemma_size(v: Self) {
        lemma_le_bytes_len(v.len as nat, PFX as nat);
        lemma_encode_all(v.items@);
    }

    proof fn lemma_codec(v: Self) {
        let e = v.encoded();
        let z = T::spec_size() as int;
        let items = v.items@;
        let lb = le_bytes(v.len as nat, PFX as nat);
        lemma_le_bytes_len(v.len as nat, PFX as nat);
        lemma_encode_all(items);
        lemma_le_roundtrip(v.len as nat, PFX as nat);
        assert(e.subrange(0, PFX as int) =~= lb);
        assert(Self::count_of(e) == v.len);
        let body = encode_all(items);
        assert forall|i: int| 0 <= i < N implies Self::elem_bytes(e, i) == (
        #[trigger] items[i]).encoded() by {
            assert((i + 1) * z == i * z + z) by (nonlinear_arith);
            assert(i * z + z <= N * z) by (nonlinear_arith)
                requires i < N, z >= 0;
            assert(0 <= i * z) by (nonlinear_arith)
                requires i >= 0, z >= 0;
            assert(Self::elem_bytes(e, i) =~= body.subrange(i * z, (i + 1) * z));
        }
        let n = v.len as int;
        assert forall|j: int| 0 <= j < n implies (#[trigger] Self::elem_errs(e)(j)) is None by {
            T::lemma_codec(items[j]);
        }
        lemma_first_err_none(Self::elem_errs(e), 0, n);
        let d = Self::decoded(e);
        let sq = Seq::new(
            N as nat,
            |i: int|
                if i < Self::count_of(e) {
                    T::decoded(Self::elem_bytes(e, i))
                } else {
                    zero_elem::<T>()
                },
        );
        assert forall|i: int| 0 <= i < N implies sq[i] == #[trigger] items[i] by {
            T::lemma_codec(items[i]);
            if i >= n {
                lemma_zero_elem::<T>(items[i]);
            }
        }
        lemma_items_of::<T, N>(sq, N as nat);
        assert(d.items =~= v.items);
    }

    fn assert_valid(&self) {
        proof {
            use_type_invariant(self);
        }
    }

    fn size() -> (r: usize) {
        Self::size()
    }

    fn encode_into(&self, out: &mut Vec<u8>) {
        proof {
            use_type_invariant(self);
        }
        let ghost head = out@;
        push_le(out, self.len as u64, PFX);
        let ghost mid = out@;
        let mut i: usize = 0;
        while i < N
            invariant
                T::layout_ok(),
                i <= N,
                self.items@.len() == N,
                out@ == mid + encode_all(self.items@.take(i as int)),
            decreases N - i,
        {
            self.items[i].encode_into(out);
            proof {
                assert(self.items@.take(i + 1).drop_last() =~= self.items@.take(i as int));
            }
            i = i + 1;
        }
        proof {
            assert(self.items@.take(N as int) =~= self.items@);
            assert(out@ =~= head + (le_bytes(self.len as nat, PFX as nat) + encode_all(
                self.items@,
            )));
        }
    }

    fn check(b: &[u8]) -> (r: Option<ZeroPodError>) {
        match Self::validate(b) {
            Ok(()) => None,
            Err(e) => Some(e),
        }
    }

    fn decode(b: &[u8]) -> (r: Self) {
        let r = match Self::from_bytes(b) {
            Ok(v) => v,
            Err(_) => vstd::pervasive::unreached(),
        };
        proof {
            use_type_invariant(&r);
            let count = Self::count_of(b@);
            let sq = Seq::new(
                N as nat,
                |i: int|
                    if i < count {
                        T::decoded(Self::elem_bytes(b@, i))
                    } else {
                        zero_elem::<T>()
                    },
            );
            lemma_items_of::<T, N>(sq, N as nat);
            assert(r@ == Self::decode(b@));
            assert(r@.len() == r.len);
            assert(r.len == count);
            assert forall|i: int| 0 <= i < N implies #[trigger] r.items@[i] == sq[i] by {
                if i < count {
                    assert(Self::decode(b@)[i] == T::decoded(Self::elem_bytes(b@, i)));
                    assert(r@[i] == r.items@[i]);
                } else {
                    lemma_zero_elem::<T>(r.items@[i]);
                }
            }
            assert(r.items =~= Self::decoded(b@).items);
        }
        r
    }

    fn zeroed() -> (r: Self) {
        let r = Self::from_items(&Vec::new());
        proof {
            use_type_invariant(&r);
            lemma_encode_all_zeros(r.items@);
            lemma_le_bytes_zero(PFX as nat);
            assert(r.encoded() =~= zeros((PFX + N * T::spec_size()) as nat));
        }
        r
    }
}

impl<T: ZcElem, const N: usize, const PFX: usize> Clone for PodVec<T, N, PFX> {
    fn clone(&self) -> (r: Self)
        ensures
            r == *self,
    {
        *self
    }
}

} // verus!
