//! Little-endian length prefixes of width 1, 2, 4 or 8 bytes.
use vstd::prelude::*;
use vstd::arithmetic::div_mod::lemma_div_denominator;

verus! {

/// `256` to the power `w`: the number of values a `w`-byte prefix can hold.
pub open spec fn pow256(w: nat) -> nat
    decreases w,
{
    if w == 0 {
        1
    } else {
        256 * pow256((w - 1) as nat)
    }
}

/// The number that the bytes `s` spell in little-endian order.
pub open spec fn le_value(s: Seq<u8>) -> nat
    decreases s.len(),
{
    if s.len() == 0 {
        0
    } else {
        s[0] as nat + 256 * le_value(s.drop_first())
    }
}

/// The `w` little-endian bytes of `n` (the low `w` bytes when `n` does not fit).
pub open spec fn le_bytes(n: nat, w: nat) -> Seq<u8>
    decreases w,
{
    if w == 0 {
        Seq::empty()
    } else {
        seq![(n % 256) as u8] + le_bytes(n / 256, (w - 1) as nat)
    }
}

/// A prefix width the layouts accept.
pub open spec fn valid_pfx(pfx: usize) -> bool {
    pfx == 1 || pfx == 2 || pfx == 4 || pfx == 8
}

/// `s` with the bytes from `off` on replaced by `t`.
pub open spec fn splice(s: Seq<u8>, off: int, t: Seq<u8>) -> Seq<u8> {
    s.subrange(0, off) + t + s.subrange(off + t.len(), s.len() as int)
}

pub proof fn lemma_pow256_pos(w: nat)
    ensures
        pow256(w) >= 1,
    decreases w,
{
    if w > 0 {
        lemma_pow256_pos((w - 1) as nat);
    }
}

pub proof fn lemma_pow256_mono(a: nat, b: nat)
    requires
        a <= b,
    ensures
        pow256(a) <= pow256(b),
    decreases b,
{
    if a < b {
        lemma_pow256_mono(a, (b - 1) as nat);
        lemma_pow256_pos((b - 1) as nat);
    }
}

pub proof fn lemma_pow256_8()
    ensures
        pow256(8) == 0x1_0000_0000_0000_0000,
{
    reveal_with_fuel(pow256, 9);
}

pub proof fn lemma_pow256_16()
    ensures
        pow256(16) == 0x1_0000_0000_0000_0000_0000_0000_0000_0000,
{
    reveal_with_fuel(pow256, 17);
}

/// A `w`-byte prefix spells a number below `256^w`.
pub proof fn lemma_le_value_bound(s: Seq<u8>)
    ensures
        le_value(s) < pow256(s.len()),
    decreases s.len(),
{
    if s.len() > 0 {
        lemma_le_value_bound(s.drop_first());
    }
}

pub proof fn lemma_le_bytes_len(n: nat, w: nat)
    ensures
        le_bytes(n, w).len() == w,
    decreases w,
{
    if w > 0 {
        lemma_le_bytes_len(n / 256, (w - 1) as nat);
    }
}

/// Byte `k` of the encoding is digit `k` of `n` in base 256.
pub proof fn lemma_le_bytes_index(n: nat, w: nat, k: int)
    requires
        0 <= k < w,
    ensures
        le_bytes(n, w)[k] == ((n / pow256(k as nat)) % 256) as u8,
    decreases w,
{
    lemma_le_bytes_len(n / 256, (w - 1) as nat);
    let t = le_bytes(n / 256, (w - 1) as nat);
    assert(le_bytes(n, w) == seq![(n % 256) as u8] + t);
    if k > 0 {
        assert(le_bytes(n, w)[k] == t[k - 1]);
        lemma_le_bytes_index(n / 256, (w - 1) as nat, k - 1);
        lemma_pow256_pos((k - 1) as nat);
        lemma_div_denominator(n as int, 256, pow256((k - 1) as nat) as int);
        assert(pow256(k as nat) == 256 * pow256((k - 1) as nat));
        assert((n / 256) as int / pow256((k - 1) as nat) as int == n as int / (256 * pow256((k - 1) as nat)) as int);
        assert(t[k - 1] == (((n / 256) / pow256((k - 1) as nat)) % 256) as u8);
    } else {
        assert(pow256(0) == 1);
        assert(n / 1 == n);
    }
}

/// Decoding an encoding gives the number back, when it fits.
pub proof fn lemma_le_roundtrip(n: nat, w: nat)
    requires
        n < pow256(w),
    ensures
        le_value(le_bytes(n, w)) == n,
    decreases w,
{
    if w > 0 {
        let t = le_bytes(n / 256, (w - 1) as nat);
        assert((seq![(n % 256) as u8] + t).drop_first() =~= t);
        lemma_le_roundtrip(n / 256, (w - 1) as nat);
    }
}

/// Encoding what a prefix spells gives the prefix back.
pub proof fn lemma_le_bytes_of_value(s: Seq<u8>)
    ensures
        le_bytes(le_value(s), s.len()) == s,
    decreases s.len(),
{
    if s.len() > 0 {
        lemma_le_bytes_of_value(s.drop_first());
        assert((le_value(s) / 256) == le_value(s.drop_first()));
        assert(seq![s[0]] + s.drop_first() =~= s);
    }
}

/// Reads the `pfx`-byte little-endian prefix at `off`.
pub fn read_len(bytes: &[u8], off: usize, pfx: usize) -> (r: u64)
    requires
        pfx <= 8,
        off + pfx <= bytes@.len(),
    ensures
        r as nat == le_value(bytes@.subrange(off as int, off + pfx)),
{
    let blen = bytes.len();
    let end = off + pfx;
    let mut i: usize = pfx;
    let mut v: u64 = 0;
    proof {
        assert(bytes@.subrange(end as int, end as int) =~= Seq::<u8>::empty());
    }
    while i > 0
        invariant
            i <= pfx <= 8,
            end == off + pfx <= bytes@.len(),
            v as nat == le_value(bytes@.subrange(off + i, end as int)),
        decreases i,
    {
        let b = bytes[off + i - 1];
        proof {
            let s = bytes@.subrange(off + i - 1, end as int);
            assert(s.drop_first() =~= bytes@.subrange(off + i, end as int));
            lemma_le_value_bound(s);
            lemma_pow256_mono(s.len(), 8);
            lemma_pow256_8();
        }
        v = v * 256 + b as u64;
        i = i - 1;
    }
    v
}

/// Writes `n` as a `pfx`-byte little-endian prefix at `off`.
pub fn write_len(bytes: &mut [u8], off: usize, pfx: usize, n: u64)
    requires
        off + pfx <= old(bytes)@.len(),
    ensures
        final(bytes)@ == splice(old(bytes)@, off as int, le_bytes(n as nat, pfx as nat)),
{
    let blen = bytes.len();
    let mut i: usize = 0;
    let mut v: u64 = n;
    proof {
        lemma_le_bytes_len(n as nat, pfx as nat);
        assert(pow256(0) == 1);
        assert(n as nat / 1 == n as nat);
    }
    while i < pfx
        invariant
            i <= pfx,
            off + pfx <= bytes@.len(),
            blen == bytes@.len(),
            bytes@.len() == old(bytes)@.len(),
            v as nat == n as nat / pow256(i as nat),
            forall|k: int| 0 <= k < off ==> bytes@[k] == old(bytes)@[k],
            forall|k: int| off + pfx <= k < bytes@.len() ==> bytes@[k] == old(bytes)@[k],
            forall|k: int| off <= k < off + i ==> #[trigger] bytes@[k] == ((n as nat / pow256((k - off) as nat)) % 256) as u8,
        decreases pfx - i,
    {
        bytes[off + i] = (v % 256) as u8;
        proof {
            lemma_pow256_pos(i as nat);
            lemma_div_denominator(n as int, pow256(i as nat) as int, 256);
            assert(pow256((i + 1) as nat) == pow256(i as nat) * 256) by (nonlinear_arith)
                requires pow256((i + 1) as nat) == 256 * pow256(i as nat);
        }
        v = v / 256;
        i = i + 1;
    }
    proof {
        let e = le_bytes(n as nat, pfx as nat);
        assert forall|k: int| 0 <= k < pfx implies e[k] == bytes@[off + k] by {
            lemma_le_bytes_index(n as nat, pfx as nat, k);
            assert(bytes@[off + k] == ((n as nat / pow256(k as nat)) % 256) as u8);
        }
        assert(bytes@ =~= splice(old(bytes)@, off as int, e));
    }
}

/// Appends `n` as `w` little-endian bytes.
pub fn push_le(out: &mut Vec<u8>, n: u64, w: usize)
    ensures
        final(out)@ == old(out)@ + le_bytes(n as nat, w as nat),
{
    let ghost start = out@;
    let mut i: usize = 0;
    let mut v: u64 = n;
    proof {
        lemma_le_bytes_len(n as nat, w as nat);
        assert(pow256(0) == 1);
        assert(n as nat / 1 == n as nat);
    }
    while i < w
        invariant
            i <= w,
            out@.len() == start.len() + i,
            v as nat == n as nat / pow256(i as nat),
            forall|k: int| 0 <= k < start.len() ==> #[trigger] out@[k] == start[k],
            forall|k: int|
                start.len() <= k < start.len() + i ==> #[trigger] out@[k] == ((n as nat / pow256(
                    (k - start.len()) as nat,
                )) % 256) as u8,
        decreases w - i,
    {
        out.push((v % 256) as u8);
        proof {
            lemma_pow256_pos(i as nat);
            lemma_div_denominator(n as int, pow256(i as nat) as int, 256);
            assert(pow256((i + 1) as nat) == pow256(i as nat) * 256) by (nonlinear_arith)
                requires pow256((i + 1) as nat) == 256 * pow256(i as nat);
        }
        v = v / 256;
        i = i + 1;
    }
    proof {
        let e = le_bytes(n as nat, w as nat);
        assert forall|k: int| 0 <= k < w implies e[k] == out@[start.len() + k] by {
            lemma_le_bytes_index(n as nat, w as nat, k);
            assert(out@[start.len() + k] == ((n as nat / pow256(k as nat)) % 256) as u8);
        }
        assert(out@ =~= start + e);
    }
}

/// Reads the `pfx`-byte little-endian number at `off`, up to 16 bytes.
pub fn read_le_wide(bytes: &[u8], off: usize, pfx: usize) -> (r: u128)
    requires
        pfx <= 16,
        off + pfx <= bytes@.len(),
    ensures
        r as nat == le_value(bytes@.subrange(off as int, off + pfx)),
{
    let blen = bytes.len();
    let end = off + pfx;
    let mut i: usize = pfx;
    let mut v: u128 = 0;
    proof {
        assert(bytes@.subrange(end as int, end as int) =~= Seq::<u8>::empty());
    }
    while i > 0
        invariant
            i <= pfx <= 16,
            end == off + pfx <= bytes@.len(),
            v as nat == le_value(bytes@.subrange(off + i, end as int)),
        decreases i,
    {
        let b = bytes[off + i - 1];
        proof {
            let s = bytes@.subrange(off + i - 1, end as int);
            assert(s.drop_first() =~= bytes@.subrange(off + i, end as int));
            lemma_le_value_bound(s);
            lemma_pow256_mono(s.len(), 16);
            lemma_pow256_16();
        }
        v = v * 256 + b as u128;
        i = i - 1;
    }
    v
}

/// Appends `n` as `w` little-endian bytes, for numbers up to 128 bits.
pub fn push_le_wide(out: &mut Vec<u8>, n: u128, w: usize)
    ensures
        final(out)@ == old(out)@ + le_bytes(n as nat, w as nat),
{
    let ghost start = out@;
    let mut i: usize = 0;
    let mut v: u128 = n;
    proof {
        lemma_le_bytes_len(n as nat, w as nat);
        assert(pow256(0) == 1);
        assert(n as nat / 1 == n as nat);
    }
    while i < w
        invariant
            i <= w,
            out@.len() == start.len() + i,
            v as nat == n as nat / pow256(i as nat),
            forall|k: int| 0 <= k < start.len() ==> #[trigger] out@[k] == start[k],
            forall|k: int|
                start.len() <= k < start.len() + i ==> #[trigger] out@[k] == ((n as nat / pow256(
                    (k - start.len()) as nat,
                )) % 256) as u8,
        decreases w - i,
    {
        out.push((v % 256) as u8);
        proof {
            lemma_pow256_pos(i as nat);
            lemma_div_denominator(n as int, pow256(i as nat) as int, 256);
            assert(pow256((i + 1) as nat) == pow256(i as nat) * 256) by (nonlinear_arith)
                requires pow256((i + 1) as nat) == 256 * pow256(i as nat);
        }
        v = v / 256;
        i = i + 1;
    }
    proof {
        let e = le_bytes(n as nat, w as nat);
        assert forall|k: int| 0 <= k < w implies e[k] == out@[start.len() + k] by {
            lemma_le_bytes_index(n as nat, w as nat, k);
            assert(out@[start.len() + k] == ((n as nat / pow256(k as nat)) % 256) as u8);
        }
        assert(out@ =~= start + e);
    }
}

} // verus!
