//! Moving and writing byte runs inside a buffer, with facts about held pieces.
use vstd::prelude::*;
use crate::pod::prefix::splice;
use super::lemmas::holds;

verus! {

/// `t` is `s` with the bytes `src..src+len` copied to `dst`.
pub open spec fn moved(s: Seq<u8>, t: Seq<u8>, src: int, dst: int, len: int) -> bool {
    &&& t.len() == s.len()
    &&& forall|p: int| dst <= p < dst + len ==> #[trigger] t[p] == s[p - dst + src]
    &&& forall|p: int| 0 <= p < s.len() && !(dst <= p < dst + len) ==> #[trigger] t[p] == s[p]
}

/// Copies `len` bytes from `src` to `dst`; the two runs may overlap.
pub fn move_bytes(data: &mut [u8], src: usize, dst: usize, len: usize)
    requires
        src + len <= old(data)@.len(),
        dst + len <= old(data)@.len(),
    ensures
        moved(old(data)@, final(data)@, src as int, dst as int, len as int),
{
    let ghost s = data@;
    let dl = data.len();
    if dst <= src {
        let mut k: usize = 0;
        while k < len
            invariant
                dst <= src,
                src + len <= s.len(),
                dst + len <= s.len(),
                data@.len() == s.len(),
                dl == s.len(),
                k <= len,
                forall|p: int| dst <= p < dst + k ==> #[trigger] data@[p] == s[p - dst + src],
                forall|p: int|
                    0 <= p < s.len() && !(dst <= p < dst + k) ==> #[trigger] data@[p] == s[p],
            decreases len - k,
        {
            let b = data[src + k];
            data[dst + k] = b;
            k = k + 1;
        }
    } else {
        let mut k: usize = len;
        while k > 0
            invariant
                dst > src,
                src + len <= s.len(),
                dst + len <= s.len(),
                data@.len() == s.len(),
                dl == s.len(),
                k <= len,
                forall|p: int| dst + k <= p < dst + len ==> #[trigger] data@[p] == s[p - dst + src],
                forall|p: int|
                    0 <= p < s.len() && !(dst + k <= p < dst + len) ==> #[trigger] data@[p] == s[p],
            decreases k,
        {
            let b = data[src + k - 1];
            data[dst + k - 1] = b;
            k = k - 1;
        }
    }
}

/// Copies the bytes of `src` to `at`.
pub fn write_bytes(data: &mut [u8], at: usize, src: &[u8])
    requires
        at + src@.len() <= old(data)@.len(),
    ensures
        final(data)@.len() == old(data)@.len(),
        holds(final(data)@, at as int, src@),
        forall|p: int|
            0 <= p < old(data)@.len() && !(at <= p < at + src@.len()) ==> #[trigger] final(data)@[p]
                == old(data)@[p],
{
    let ghost s = data@;
    let dl = data.len();
    let n = src.len();
    let mut k: usize = 0;
    while k < n
        invariant
            n == src@.len(),
            at + n <= s.len(),
            data@.len() == s.len(),
            dl == s.len(),
            k <= n,
            forall|p: int| at <= p < at + k ==> #[trigger] data@[p] == src@[p - at],
            forall|p: int| 0 <= p < s.len() && !(at <= p < at + k) ==> #[trigger] data@[p] == s[p],
        decreases n - k,
    {
        data[at + k] = src[k];
        k = k + 1;
    }
    assert(data@.subrange(at as int, at + n) =~= src@);
}

pub proof fn lemma_holds_moved(s: Seq<u8>, t: Seq<u8>, src: int, dst: int, piece: Seq<u8>)
    requires
        holds(s, src, piece),
        0 <= dst,
        dst + piece.len() <= s.len(),
        moved(s, t, src, dst, piece.len() as int),
    ensures
        holds(t, dst, piece),
{
    assert forall|q: int| 0 <= q < piece.len() implies t.subrange(dst, dst + piece.len())[q]
        == piece[q] by {
        assert(t[dst + q] == s[src + q]);
        assert(s.subrange(src, src + piece.len())[q] == s[src + q]);
    }
    assert(t.subrange(dst, dst + piece.len()) =~= piece);
}

pub proof fn lemma_splice_frame(s: Seq<u8>, off: int, piece: Seq<u8>)
    requires
        0 <= off,
        off + piece.len() <= s.len(),
    ensures
        splice(s, off, piece).len() == s.len(),
        holds(splice(s, off, piece), off, piece),
        forall|p: int|
            0 <= p < s.len() && !(off <= p < off + piece.len()) ==> #[trigger] splice(
                s,
                off,
                piece,
            )[p] == s[p],
{
    let t = splice(s, off, piece);
    assert(t.subrange(off, off + piece.len()) =~= piece);
}

pub proof fn lemma_holds_empty(s: Seq<u8>, at: int)
    requires
        0 <= at <= s.len(),
    ensures
        holds(s, at, Seq::empty()),
{
    assert(s.subrange(at, at) =~= Seq::<u8>::empty());
}

pub proof fn lemma_holds_concat(s: Seq<u8>, at: int, a: Seq<u8>, b: Seq<u8>)
    requires
        holds(s, at, a),
        holds(s, at + a.len(), b),
    ensures
        holds(s, at, a + b),
{
    assert(s.subrange(at, at + (a + b).len()) =~= s.subrange(at, at + a.len()) + s.subrange(
        at + a.len(),
        at + a.len() + b.len(),
    ));
}

/// A piece held inside the first `h` bytes is held by that prefix.
pub proof fn lemma_holds_in_prefix(s: Seq<u8>, h: int, at: int, piece: Seq<u8>)
    requires
        holds(s, at, piece),
        at + piece.len() <= h <= s.len(),
    ensures
        holds(s.subrange(0, h), at, piece),
{
    assert(s.subrange(0, h).subrange(at, at + piece.len()) =~= s.subrange(at, at + piece.len()));
}

} // verus!
