use vstd::prelude::*;
use vstd::arithmetic::div_mod::{lemma_basic_div, lemma_div_denominator};
use vstd::arithmetic::mul::lemma_mul_inequality;

verus! {

/// `256^w`, the number of values a `w`-byte big-endian buffer can hold.
pub open spec fn pow256(w: nat) -> nat
    decreases w,
{
    if w == 0 {
        1
    } else {
        256 * pow256((w - 1) as nat)
    }
}

/// `16^k`, the number of values a `k`-nybble string can hold.
pub open spec fn pow16(k: nat) -> nat
    decreases k,
{
    if k == 0 {
        1
    } else {
        16 * pow16((k - 1) as nat)
    }
}

/// True when every element of `ns` is a nybble value.
pub open spec fn all_nybbles(ns: Seq<u8>) -> bool {
    forall|i: int| 0 <= i < ns.len() ==> ns[i] < 16
}

/// The nybbles of `bytes` in order: for each byte its high nybble, then its
/// low nybble.
pub open spec fn nybbles_of(bytes: Seq<u8>) -> Seq<u8> {
    Seq::new(
        2 * bytes.len(),
        |i: int| if i % 2 == 0 { (bytes[i / 2] / 16) as u8 } else { (bytes[i / 2] % 16) as u8 },
    )
}

/// Reassembles an even-length nybble sequence into bytes, two nybbles per
/// byte, high nybble first.
pub open spec fn pair_bytes(ns: Seq<u8>) -> Seq<u8>
    recommends
        ns.len() % 2 == 0,
        all_nybbles(ns),
{
    Seq::new(ns.len() / 2, |i: int| (ns[2 * i] * 16 + ns[2 * i + 1]) as u8)
}

/// Drops every leading zero from a nybble sequence.
pub open spec fn trim_zeros(ns: Seq<u8>) -> Seq<u8>
    decreases ns.len(),
{
    if ns.len() == 0 {
        ns
    } else if ns[0] != 0 {
        ns
    } else {
        trim_zeros(ns.skip(1))
    }
}

/// Prepends one zero nybble when the length is odd, so that the sequence
/// pairs up into whole bytes.
pub open spec fn pad_even(ns: Seq<u8>) -> Seq<u8> {
    if ns.len() % 2 == 0 {
        ns
    } else {
        seq![0u8] + ns
    }
}

/// The bytes denoted by the nybbles of one decoded section: the sequence is
/// padded on the left to an even length, then paired into bytes.
pub open spec fn section_bytes(ns: Seq<u8>) -> Seq<u8> {
    pair_bytes(pad_even(ns))
}

/// The unsigned value of a big-endian byte sequence.
pub open spec fn be_val(bytes: Seq<u8>) -> nat
    decreases bytes.len(),
{
    if bytes.len() == 0 {
        0
    } else {
        be_val(bytes.drop_last()) * 256 + bytes.last() as nat
    }
}

/// The unsigned value of a big-endian nybble sequence.
pub open spec fn nyb_val(ns: Seq<u8>) -> nat
    decreases ns.len(),
{
    if ns.len() == 0 {
        0
    } else {
        nyb_val(ns.drop_last()) * 16 + ns.last() as nat
    }
}

/// The `w`-byte big-endian representation of `v` (of `v`'s low `w` bytes,
/// when `v` does not fit).
pub open spec fn u_be_bytes(v: nat, w: nat) -> Seq<u8>
    decreases w,
{
    if w == 0 {
        Seq::empty()
    } else {
        u_be_bytes(v / 256, (w - 1) as nat) + seq![(v % 256) as u8]
    }
}

pub proof fn lemma_pow256_pos(w: nat)
    ensures
        pow256(w) >= 1,
    decreases w,
{
    if w > 0 {
        lemma_pow256_pos((w - 1) as nat);
    }
}

pub proof fn lemma_pow16_pos(k: nat)
    ensures
        pow16(k) >= 1,
    decreases k,
{
    if k > 0 {
        lemma_pow16_pos((k - 1) as nat);
    }
}

pub proof fn lemma_pow16_monotone(j: nat, k: nat)
    requires
        j <= k,
    ensures
        pow16(j) <= pow16(k),
    decreases k,
{
    if j < k {
        lemma_pow16_monotone(j, (k - 1) as nat);
        lemma_pow16_pos((k - 1) as nat);
    }
}

pub proof fn lemma_pow256_monotone(j: nat, k: nat)
    requires
        j <= k,
    ensures
        pow256(j) <= pow256(k),
    decreases k,
{
    if j < k {
        lemma_pow256_monotone(j, (k - 1) as nat);
        lemma_pow256_pos((k - 1) as nat);
    }
}

/// The concrete sizes used by the fixed-width integer adapters.
pub proof fn lemma_pow256_values()
    ensures
        pow256(1) == 0x100,
        pow256(2) == 0x10000,
        pow256(4) == 0x1_0000_0000,
        pow256(8) == 0x1_0000_0000_0000_0000,
        pow256(16) == 0x1_0000_0000_0000_0000_0000_0000_0000_0000,
{
    reveal_with_fuel(pow256, 17);
}

/// `trim_zeros` removes exactly the leading zeros: the result is the suffix
/// of `ns` that starts at its first nonzero element.
pub proof fn lemma_trim_zeros_shape(ns: Seq<u8>)
    ensures
        trim_zeros(ns).len() <= ns.len(),
        trim_zeros(ns) == ns.skip(ns.len() - trim_zeros(ns).len()),
        forall|i: int| 0 <= i < ns.len() - trim_zeros(ns).len() ==> ns[i] == 0,
        trim_zeros(ns).len() > 0 ==> trim_zeros(ns)[0] != 0,
    decreases ns.len(),
{
    if ns.len() == 0 {
        assert(trim_zeros(ns) =~= ns.skip(0));
    } else if ns[0] != 0 {
        assert(trim_zeros(ns) =~= ns.skip(0));
    } else {
        lemma_trim_zeros_shape(ns.skip(1));
        let t = trim_zeros(ns);
        assert(t == trim_zeros(ns.skip(1)));
        assert(ns.skip(1).skip(ns.skip(1).len() - t.len()) =~= ns.skip(ns.len() - t.len()));
        assert forall|i: int| 0 <= i < ns.len() - t.len() implies ns[i] == 0 by {
            if i > 0 {
                assert(ns.skip(1)[i - 1] == 0);
            }
        }
    }
}

/// A sequence whose first `k` elements are zero and whose element `k` (if
/// any) is nonzero trims to its suffix from `k`.
pub proof fn lemma_trim_zeros_at(ns: Seq<u8>, k: int)
    requires
        0 <= k <= ns.len(),
        forall|i: int| 0 <= i < k ==> ns[i] == 0,
        k < ns.len() ==> ns[k] != 0,
    ensures
        trim_zeros(ns) == ns.skip(k),
    decreases k,
{
    if k == 0 {
        if ns.len() == 0 {
            assert(trim_zeros(ns) =~= ns.skip(0));
        } else {
            assert(trim_zeros(ns) =~= ns.skip(0));
        }
    } else {
        lemma_trim_zeros_at(ns.skip(1), k - 1);
        assert(ns.skip(1).skip(k - 1) =~= ns.skip(k));
    }
}

/// Splitting a byte into nybbles and pairing them back is the identity.
pub proof fn lemma_pair_nybbles(bytes: Seq<u8>)
    ensures
        pair_bytes(nybbles_of(bytes)) =~= bytes,
        all_nybbles(nybbles_of(bytes)),
{
    let ns = nybbles_of(bytes);
    assert forall|i: int| 0 <= i < bytes.len() implies pair_bytes(ns)[i] == bytes[i] by {
        assert(ns[2 * i] == bytes[i] / 16);
        assert(ns[2 * i + 1] == bytes[i] % 16);
    }
}

/// Pairing a nybble sequence led by an even number of zeros yields the
/// paired suffix led by the matching zero bytes.
pub proof fn lemma_pair_zero_prefix(ns: Seq<u8>, k: int)
    requires
        0 <= k <= ns.len(),
        k % 2 == 0,
        ns.len() % 2 == 0,
        forall|i: int| 0 <= i < k ==> ns[i] == 0,
    ensures
        pair_bytes(ns) =~= Seq::new((k / 2) as nat, |i: int| 0u8) + pair_bytes(ns.skip(k)),
{
    let rhs = Seq::new((k / 2) as nat, |i: int| 0u8) + pair_bytes(ns.skip(k));
    assert forall|i: int| 0 <= i < ns.len() / 2 implies pair_bytes(ns)[i] == rhs[i] by {
        if i < k / 2 {
            assert(ns[2 * i] == 0);
            assert(ns[2 * i + 1] == 0);
        } else {
            assert(ns.skip(k)[2 * (i - k / 2)] == ns[2 * i]);
            assert(ns.skip(k)[2 * (i - k / 2) + 1] == ns[2 * i + 1]);
        }
    }
}

/// Pairing two more nybbles extends the paired bytes by one.
pub proof fn lemma_pair_take_step(ns: Seq<u8>, m: int)
    requires
        0 <= m,
        m % 2 == 0,
        m + 2 <= ns.len(),
    ensures
        pair_bytes(ns.take(m + 2)) =~= pair_bytes(ns.take(m)) + seq![
            (ns[m] * 16 + ns[m + 1]) as u8,
        ],
{
    let lhs = pair_bytes(ns.take(m + 2));
    let rhs = pair_bytes(ns.take(m)) + seq![(ns[m] * 16 + ns[m + 1]) as u8];
    assert forall|i: int| 0 <= i < lhs.len() implies lhs[i] == rhs[i] by {
        assert(ns.take(m + 2)[2 * i] == ns[2 * i]);
        assert(ns.take(m + 2)[2 * i + 1] == ns[2 * i + 1]);
        if i < m / 2 {
            assert(ns.take(m)[2 * i] == ns[2 * i]);
            assert(ns.take(m)[2 * i + 1] == ns[2 * i + 1]);
        }
    }
}

/// A sequence of zero bytes denotes the value zero.
pub proof fn lemma_be_val_all_zero(bytes: Seq<u8>)
    requires
        forall|i: int| 0 <= i < bytes.len() ==> bytes[i] == 0,
    ensures
        be_val(bytes) == 0,
    decreases bytes.len(),
{
    if bytes.len() > 0 {
        lemma_be_val_all_zero(bytes.drop_last());
    }
}

/// Leading zero bytes do not change the value.
pub proof fn lemma_be_val_zero_prefix(bytes: Seq<u8>, k: int)
    requires
        0 <= k <= bytes.len(),
        forall|i: int| 0 <= i < k ==> bytes[i] == 0,
    ensures
        be_val(bytes) == be_val(bytes.skip(k)),
    decreases bytes.len(),
{
    if k == bytes.len() {
        lemma_be_val_all_zero(bytes);
        assert(bytes.skip(k) =~= Seq::<u8>::empty());
    } else {
        lemma_be_val_zero_prefix(bytes.drop_last(), k);
        assert(bytes.drop_last().skip(k) =~= bytes.skip(k).drop_last());
        assert(bytes.skip(k).last() == bytes.last());
    }
}

/// The value of `w` bytes is below `256^w`.
pub proof fn lemma_be_val_bound(bytes: Seq<u8>)
    ensures
        be_val(bytes) < pow256(bytes.len()),
    decreases bytes.len(),
{
    if bytes.len() == 0 {
    } else {
        lemma_be_val_bound(bytes.drop_last());
        let p = pow256((bytes.len() - 1) as nat);
        assert(be_val(bytes.drop_last()) * 256 <= (p - 1) * 256) by {
            lemma_mul_inequality(be_val(bytes.drop_last()) as int, p - 1, 256);
        }
    }
}

pub proof fn lemma_u_be_bytes_len(v: nat, w: nat)
    ensures
        u_be_bytes(v, w).len() == w,
    decreases w,
{
    if w > 0 {
        lemma_u_be_bytes_len(v / 256, (w - 1) as nat);
    }
}

/// Every element of a big-endian representation is a byte whose nybbles are
/// nybble values (trivially true of any `u8`), and the representation of a
/// value that fits denotes the value itself.
pub proof fn lemma_u_be_bytes_val(v: nat, w: nat)
    requires
        v < pow256(w),
    ensures
        be_val(u_be_bytes(v, w)) == v,
    decreases w,
{
    if w == 0 {
    } else {
        let rest = u_be_bytes(v / 256, (w - 1) as nat);
        assert(256 * (v / 256) <= v);
        if v / 256 >= pow256((w - 1) as nat) {
            lemma_mul_inequality(pow256((w - 1) as nat) as int, (v / 256) as int, 256);
            assert(false);
        }
        lemma_u_be_bytes_val(v / 256, (w - 1) as nat);
        assert((rest + seq![(v % 256) as u8]).drop_last() =~= rest);
        assert(be_val(u_be_bytes(v, w)) == (v / 256) * 256 + v % 256);
    }
}

/// Extending a representation by one byte on the left prepends the next
/// more significant byte of the value.
pub proof fn lemma_u_be_bytes_front(v: nat, w: nat)
    ensures
        u_be_bytes(v, w + 1) =~= seq![((v / pow256(w)) % 256) as u8] + u_be_bytes(v, w),
    decreases w,
{
    if w == 0 {
        assert(u_be_bytes(v / 256, 0) =~= Seq::<u8>::empty());
        assert(u_be_bytes(v, 1) =~= seq![(v % 256) as u8]);
        assert(pow256(0) == 1);
        assert(v / pow256(0) == v);
    } else {
        lemma_u_be_bytes_front(v / 256, (w - 1) as nat);
        lemma_pow256_pos((w - 1) as nat);
        lemma_div_denominator(v as int, 256, pow256((w - 1) as nat) as int);
        assert(256 * pow256((w - 1) as nat) == pow256(w));
        assert((v / 256) / pow256((w - 1) as nat) == v / pow256(w));
        assert(u_be_bytes(v, w + 1) == u_be_bytes(v / 256, w) + seq![(v % 256) as u8]);
        assert(u_be_bytes(v / 256, w) =~= seq![((v / pow256(w)) % 256) as u8] + u_be_bytes(
            v / 256,
            (w - 1) as nat,
        ));
    }
}

/// A value that fits in `w` bytes gains only zero bytes when represented in
/// more bytes.
pub proof fn lemma_u_be_bytes_zero_extend(v: nat, w: nat)
    requires
        v < pow256(w),
    ensures
        u_be_bytes(v, w + 1) =~= seq![0u8] + u_be_bytes(v, w),
{
    lemma_u_be_bytes_front(v, w);
    lemma_pow256_pos(w);
    lemma_basic_div(v as int, pow256(w) as int);
}

/// Reading a nybble sequence two at a time as bytes yields the same value.
pub proof fn lemma_nyb_val_pairs(ns: Seq<u8>)
    requires
        ns.len() % 2 == 0,
        all_nybbles(ns),
    ensures
        be_val(pair_bytes(ns)) == nyb_val(ns),
    decreases ns.len(),
{
    if ns.len() == 0 {
    } else {
        let shorter = ns.take(ns.len() - 2);
        assert(shorter.len() % 2 == 0);
        lemma_nyb_val_pairs(shorter);
        assert(pair_bytes(ns).drop_last() =~= pair_bytes(shorter));
        assert(ns.drop_last().drop_last() =~= shorter);
        assert(ns.drop_last().last() == ns[ns.len() - 2]);
        assert(ns.last() == ns[ns.len() - 1]);
        assert(nyb_val(ns.drop_last()) == nyb_val(shorter) * 16 + ns[ns.len() - 2]);
        assert(nyb_val(ns) == (nyb_val(shorter) * 16 + ns[ns.len() - 2]) * 16 + ns[ns.len() - 1]);
        assert(pair_bytes(ns).last() == ns[ns.len() - 2] * 16 + ns[ns.len() - 1]);
        assert((nyb_val(shorter) * 16 + ns[ns.len() - 2]) * 16 == nyb_val(shorter) * 256 + ns[ns.len()
            - 2] * 16) by (nonlinear_arith);
    }
}

/// The nybbles of a byte sequence denote the same value as the bytes.
pub proof fn lemma_be_val_nybbles(bytes: Seq<u8>)
    ensures
        nyb_val(nybbles_of(bytes)) == be_val(bytes),
{
    lemma_pair_nybbles(bytes);
    lemma_nyb_val_pairs(nybbles_of(bytes));
}

/// Leading zero nybbles do not change the value.
pub proof fn lemma_nyb_val_zero_prefix(ns: Seq<u8>, k: int)
    requires
        0 <= k <= ns.len(),
        forall|i: int| 0 <= i < k ==> ns[i] == 0,
    ensures
        nyb_val(ns) == nyb_val(ns.skip(k)),
    decreases ns.len(),
{
    if k == ns.len() {
        assert(ns.skip(k) =~= Seq::<u8>::empty());
        lemma_nyb_val_all_zero(ns);
    } else {
        lemma_nyb_val_zero_prefix(ns.drop_last(), k);
        assert(ns.drop_last().skip(k) =~= ns.skip(k).drop_last());
        assert(ns.skip(k).last() == ns.last());
    }
}

/// A sequence of zero nybbles denotes the value zero.
pub proof fn lemma_nyb_val_all_zero(ns: Seq<u8>)
    requires
        forall|i: int| 0 <= i < ns.len() ==> ns[i] == 0,
    ensures
        nyb_val(ns) == 0,
    decreases ns.len(),
{
    if ns.len() > 0 {
        lemma_nyb_val_all_zero(ns.drop_last());
    }
}

/// Peeling the most significant nybble off the front of a sequence.
pub proof fn lemma_nyb_val_cons(ns: Seq<u8>)
    requires
        ns.len() >= 1,
    ensures
        nyb_val(ns) == ns[0] * pow16((ns.len() - 1) as nat) + nyb_val(ns.skip(1)),
    decreases ns.len(),
{
    if ns.len() == 1 {
        assert(ns.drop_last() =~= Seq::<u8>::empty());
        assert(ns.skip(1) =~= Seq::<u8>::empty());
        assert(pow16(0) == 1);
        assert(nyb_val(ns) == nyb_val(ns.drop_last()) * 16 + ns.last() as nat);
        assert(nyb_val(ns) == ns[0] as nat);
    } else {
        let s = ns.drop_last();
        lemma_nyb_val_cons(s);
        assert(ns.skip(1).drop_last() =~= s.skip(1));
        assert(ns.skip(1).last() == ns.last());
        assert(nyb_val(ns.skip(1)) == nyb_val(s.skip(1)) * 16 + ns.last() as nat);
        assert(nyb_val(ns) == nyb_val(s) * 16 + ns.last() as nat);
        assert(s[0] == ns[0]);
        let k = (s.len() - 1) as nat;
        let x = s[0] as int;
        let p = pow16(k) as int;
        let r = nyb_val(s.skip(1)) as int;
        let l = ns.last() as int;
        assert((x * p + r) * 16 + l == x * (16 * p) + (r * 16 + l)) by (nonlinear_arith);
        assert(16 * pow16(k) == pow16((ns.len() - 1) as nat));
        assert(nyb_val(ns) == ns[0] * pow16((ns.len() - 1) as nat) + nyb_val(ns.skip(1)));
    }
}

/// The value of `k` nybbles is below `16^k`.
pub proof fn lemma_nyb_val_bound(ns: Seq<u8>)
    requires
        all_nybbles(ns),
    ensures
        nyb_val(ns) < pow16(ns.len()),
    decreases ns.len(),
{
    if ns.len() > 0 {
        lemma_nyb_val_bound(ns.drop_last());
        let p = pow16((ns.len() - 1) as nat);
        assert(nyb_val(ns.drop_last()) * 16 <= (p - 1) * 16) by {
            lemma_mul_inequality(nyb_val(ns.drop_last()) as int, p - 1, 16);
        }
    }
}

/// A sequence that starts with a nonzero nybble reaches at least
/// `16^(len-1)`.
pub proof fn lemma_nyb_val_lower_bound(ns: Seq<u8>)
    requires
        ns.len() >= 1,
        ns[0] != 0,
    ensures
        nyb_val(ns) >= pow16((ns.len() - 1) as nat),
    decreases ns.len(),
{
    if ns.len() == 1 {
        assert(ns.drop_last() =~= Seq::<u8>::empty());
    } else {
        lemma_nyb_val_lower_bound(ns.drop_last());
        let p = pow16((ns.len() - 2) as nat);
        assert(nyb_val(ns.drop_last()) * 16 >= p * 16) by {
            lemma_mul_inequality(p as int, nyb_val(ns.drop_last()) as int, 16);
        }
    }
}

} // verus!
