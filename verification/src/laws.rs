use vstd::prelude::*;
use vstd::arithmetic::mul::lemma_mul_inequality;
use crate::alphabet::{
    lemma_glyph_order, lemma_glyph_ranges, lemma_high_glyph_value, lemma_low_glyph_value,
    spec_high_glyph, spec_low_glyph, spec_nybble_value,
};
use crate::decode::{
    decode_nybbles, decode_section_nybbles, decode_uint, take_at_most,
};
use crate::encode::{encode_uint, glyph_run};
use crate::error::AzamError;
use crate::nybbles::{
    all_nybbles, be_val, lemma_be_val_zero_prefix, lemma_nyb_val_bound, lemma_nyb_val_cons,
    lemma_nyb_val_lower_bound, lemma_nyb_val_zero_prefix, lemma_be_val_nybbles,
    lemma_pair_nybbles, lemma_pair_zero_prefix, lemma_pow16_monotone, lemma_pow256_monotone,
    lemma_trim_zeros_shape, lemma_u_be_bytes_len, lemma_u_be_bytes_val,
    lemma_u_be_bytes_zero_extend, nyb_val, nybbles_of, pad_even, pair_bytes, pow16, pow256,
    section_bytes, trim_zeros, u_be_bytes,
};

verus! {

/// Byte-wise lexicographic order on symbol streams: exactly the order in
/// which the encoded strings compare as Rust strings or byte slices.
pub open spec fn lex_lt(a: Seq<u8>, b: Seq<u8>) -> bool
    decreases a.len(), b.len(),
{
    if b.len() == 0 {
        false
    } else if a.len() == 0 {
        true
    } else if a[0] < b[0] {
        true
    } else if a[0] > b[0] {
        false
    } else {
        lex_lt(a.skip(1), b.skip(1))
    }
}

/// The significant nybbles of value `v` at width `w`: its big-endian
/// nybbles with the leading zeros elided.  This is exactly what the
/// encoder writes as glyphs.
pub open spec fn significant_nybbles(v: nat, w: nat) -> Seq<u8> {
    trim_zeros(nybbles_of(u_be_bytes(v, w)))
}

/// Whether the first position at which the significant nybbles of the
/// smaller value differ from those of the larger one, among the positions
/// the smaller value's glyphs still occupy before its terminator, does not
/// decrease.  When the two values have equally many significant nybbles
/// this always holds; when the smaller value has fewer, its terminating
/// low glyph outruns the comparison and an earlier larger nybble would
/// reverse the string order.
pub open spec fn order_kept(ta: Seq<u8>, tb: Seq<u8>) -> bool
    decreases ta.len(),
{
    if ta.len() <= 1 || tb.len() == 0 {
        true
    } else if ta[0] != tb[0] {
        ta[0] < tb[0]
    } else {
        order_kept(ta.skip(1), tb.skip(1))
    }
}

/// A glyph run decodes back to exactly the nybbles it was written from.
proof fn lemma_decode_glyph_run(t: Seq<u8>)
    requires
        1 <= t.len(),
        all_nybbles(t),
    ensures
        decode_nybbles(glyph_run(t)) == Ok::<Seq<u8>, AzamError>(t),
    decreases t.len(),
{
    let g = glyph_run(t);
    assert(g.len() == t.len());
    if t.len() == 1 {
        assert(g[0] == spec_low_glyph(t[0]));
        lemma_low_glyph_value(t[0]);
        assert(decode_nybbles(g) == Ok::<Seq<u8>, AzamError>(seq![t[0]]));
        assert(seq![t[0]] =~= t);
    } else {
        assert(g[0] == spec_high_glyph(t[0]));
        lemma_high_glyph_value(t[0]);
        let v = (t[0] + 16) as u8;
        assert(v >= 16);
        assert(g.skip(1) =~= glyph_run(t.skip(1)));
        lemma_decode_glyph_run(t.skip(1));
        assert(decode_nybbles(g) == Ok::<Seq<u8>, AzamError>(seq![(v - 16) as u8] + t.skip(1)));
        assert(seq![(v - 16) as u8] + t.skip(1) =~= t);
    }
}

/// A nonempty glyph run whose first nybble is nonzero decodes as a whole
/// canonical section.
proof fn lemma_decode_glyph_run_section(t: Seq<u8>)
    requires
        1 <= t.len(),
        all_nybbles(t),
        t[0] != 0,
    ensures
        decode_section_nybbles(glyph_run(t)) == Ok::<Seq<u8>, AzamError>(t),
{
    lemma_decode_glyph_run(t);
    let g = glyph_run(t);
    if t.len() == 1 {
        lemma_low_glyph_value(t[0]);
        assert(spec_nybble_value(g[0]) == Some(t[0]));
    } else {
        lemma_high_glyph_value(t[0]);
        assert(spec_nybble_value(g[0]) == Some((t[0] + 16) as u8));
    }
    assert(spec_nybble_value(g[0]) != Some(16u8));
}

/// The elided leading zeros of an encoding carry no value: the bytes of
/// the decoded section denote the same value as the full-width buffer the
/// encoder started from.
proof fn lemma_section_value(bytes: Seq<u8>)
    requires
        trim_zeros(nybbles_of(bytes)).len() >= 1,
    ensures
        be_val(section_bytes(trim_zeros(nybbles_of(bytes)))) == be_val(bytes),
{
    let ns = nybbles_of(bytes);
    let t = trim_zeros(ns);
    lemma_pair_nybbles(bytes);
    lemma_trim_zeros_shape(ns);
    let k = ns.len() - t.len();
    let pe = pad_even(t);
    let kp = ns.len() - pe.len();
    assert(ns.len() % 2 == 0);
    if t.len() % 2 == 0 {
        assert(pe == t);
        assert(kp % 2 == 0);
        assert(ns.skip(kp) == t);
    } else {
        assert(pe == seq![0u8] + t);
        assert(kp == k - 1);
        assert(kp % 2 == 0);
        assert(ns[kp] == 0);
        assert(ns.skip(kp) =~= seq![0u8] + ns.skip(k));
        assert(ns.skip(kp) == pe);
    }
    lemma_pair_zero_prefix(ns, kp);
    assert(pair_bytes(ns) =~= Seq::new((kp / 2) as nat, |i: int| 0u8) + section_bytes(t));
    assert(bytes == Seq::new((kp / 2) as nat, |i: int| 0u8) + section_bytes(t));
    assert(forall|i: int| 0 <= i < kp / 2 ==> bytes[i] == 0);
    lemma_be_val_zero_prefix(bytes, kp / 2);
    assert(bytes.skip(kp / 2) =~= section_bytes(t));
}

/// Round trip: decoding the encoding of any value of any supported width,
/// at that width, yields the value back.
pub proof fn lemma_round_trip(v: nat, w: nat)
    requires
        1 <= w,
        v < pow256(w),
    ensures
        decode_uint(encode_uint(v, w), w) == Ok::<nat, AzamError>(v),
{
    let bytes = u_be_bytes(v, w);
    let ns = nybbles_of(bytes);
    let t = trim_zeros(ns);
    lemma_u_be_bytes_len(v, w);
    lemma_u_be_bytes_val(v, w);
    lemma_pair_nybbles(bytes);
    lemma_trim_zeros_shape(ns);
    let e = encode_uint(v, w);
    if t.len() == 0 {
        // Every nybble is zero, so every byte is zero and the value is zero.
        assert(forall|i: int| 0 <= i < ns.len() ==> ns[i] == 0);
        assert(forall|i: int| 0 <= i < bytes.len() ==> #[trigger] bytes[i] == pair_bytes(ns)[i]
            && bytes[i] == 0);
        crate::nybbles::lemma_be_val_all_zero(bytes);
        assert(v == 0);
        assert(e == seq![0x30u8]);
        assert(e.len() == 1 <= 2 * w);
        assert(take_at_most(e, 2 * w) == e);
        assert(e[0] == 0x30);
        assert(spec_nybble_value(0x30u8) == Some(0u8));
        assert(e.skip(1) =~= Seq::<u8>::empty());
        assert(decode_nybbles(e) == Ok::<Seq<u8>, AzamError>(seq![0u8]));
        assert(decode_section_nybbles(e) == Ok::<Seq<u8>, AzamError>(seq![0u8]));
        let dec = section_bytes(seq![0u8]);
        assert(pad_even(seq![0u8]) =~= seq![0u8, 0u8]);
        assert(dec =~= seq![0u8]);
        assert(seq![0u8].drop_last() =~= Seq::<u8>::empty());
        assert(be_val(Seq::<u8>::empty()) == 0);
        assert(be_val(seq![0u8]) == 0);
        assert(be_val(dec) == 0);
    } else {
        assert(e == glyph_run(t));
        assert(t == ns.skip(ns.len() - t.len()));
        assert(all_nybbles(t));
        assert(t[0] != 0);
        lemma_decode_glyph_run_section(t);
        assert(e.len() == t.len() <= 2 * w);
        assert(take_at_most(e, 2 * w) == e);
        lemma_section_value(bytes);
    }
}

/// Canonical shortening: the wire form is independent of the width, for
/// any width the value fits in, because every leading zero nybble is
/// elided.  A value encoded at a wider width yields the identical symbol
/// stream.
pub proof fn lemma_encode_width_independent(v: nat, w1: nat, w2: nat)
    requires
        1 <= w1 <= w2,
        v < pow256(w1),
    ensures
        encode_uint(v, w1) == encode_uint(v, w2),
    decreases w2,
{
    if w2 > w1 {
        lemma_encode_width_independent(v, w1, (w2 - 1) as nat);
        lemma_pow256_monotone(w1, (w2 - 1) as nat);
        lemma_u_be_bytes_zero_extend(v, (w2 - 1) as nat);
        let bytes = u_be_bytes(v, (w2 - 1) as nat);
        lemma_u_be_bytes_len(v, (w2 - 1) as nat);
        lemma_u_be_bytes_len(v, w2);
        assert(u_be_bytes(v, w2) == seq![0u8] + bytes);
        lemma_nybbles_zero_byte(bytes);
        let ns = nybbles_of(bytes);
        assert(trim_zeros(seq![0u8, 0u8] + ns) == trim_zeros(ns)) by {
            lemma_trim_zeros_uncons(seq![0u8] + ns);
            assert((seq![0u8, 0u8] + ns).skip(1) =~= seq![0u8] + ns);
            assert(trim_zeros(seq![0u8, 0u8] + ns) == trim_zeros(seq![0u8] + ns));
            lemma_trim_zeros_uncons(ns);
            assert((seq![0u8] + ns).skip(1) =~= ns);
        }
        assert(bytes.len() >= 1);
        assert(encode_uint(v, w2) == encode_uint(v, (w2 - 1) as nat));
    }
}

/// Prepending a zero byte prepends two zero nybbles.
proof fn lemma_nybbles_zero_byte(bytes: Seq<u8>)
    ensures
        nybbles_of(seq![0u8] + bytes) =~= seq![0u8, 0u8] + nybbles_of(bytes),
{
    let lhs = nybbles_of(seq![0u8] + bytes);
    let rhs = seq![0u8, 0u8] + nybbles_of(bytes);
    assert forall|i: int| 0 <= i < lhs.len() implies lhs[i] == rhs[i] by {
        if i >= 2 {
            assert((seq![0u8] + bytes)[i / 2] == bytes[i / 2 - 1]);
            assert((i - 2) / 2 == i / 2 - 1);
        } else {
            assert((seq![0u8] + bytes)[0] == 0u8);
        }
    }
}

/// A single leading zero nybble is trimmed.
proof fn lemma_trim_zeros_uncons(ns: Seq<u8>)
    ensures
        trim_zeros(seq![0u8] + ns) == trim_zeros((seq![0u8] + ns).skip(1)),
{
    assert((seq![0u8] + ns).len() > 0);
    assert((seq![0u8] + ns)[0] == 0u8);
}

/// Padding/truncation tolerance: a successful fixed-width decode stops at
/// the section terminator, so appending anything after the section leaves
/// the decoded value unchanged.
pub proof fn lemma_decode_uint_ignores_trailing(s: Seq<u8>, ext: Seq<u8>, w: nat)
    requires
        decode_uint(s, w) is Ok,
    ensures
        decode_uint(s + ext, w) == decode_uint(s, w),
{
    let c1 = take_at_most(s, 2 * w);
    let c2 = take_at_most(s + ext, 2 * w);
    if s.len() >= 2 * w {
        assert(c2 =~= c1);
    } else {
        assert(c1 == s);
        assert(c2.len() >= s.len());
        let e2 = c2.skip(s.len() as int);
        assert(c2 =~= s + e2);
        assert(decode_nybbles(s) is Ok);
        lemma_decode_nybbles_ignores_trailing(s, e2);
        assert(s.len() > 0);
        assert((s + e2)[0] == s[0]);
        assert(decode_section_nybbles(c2) == decode_section_nybbles(c1));
    }
}

/// A stream whose first section decodes successfully decodes to the same
/// section after any extension: the decoder never reads past the
/// terminating low glyph.
pub proof fn lemma_decode_nybbles_ignores_trailing(s: Seq<u8>, ext: Seq<u8>)
    requires
        decode_nybbles(s) is Ok,
    ensures
        decode_nybbles(s + ext) == decode_nybbles(s),
    decreases s.len(),
{
    assert(s.len() > 0);
    assert((s + ext)[0] == s[0]);
    assert((s + ext).len() > 0);
    match spec_nybble_value(s[0]) {
        None => {},
        Some(v) => {
            if v < 16 {
            } else {
                assert(decode_nybbles(s.skip(1)) is Ok);
                lemma_decode_nybbles_ignores_trailing(s.skip(1), ext);
                assert((s + ext).skip(1) =~= s.skip(1) + ext);
            }
        },
    }
}

/// Equal-length nybble strings compare lexicographically as their values.
proof fn lemma_val_lex(s1: Seq<u8>, s2: Seq<u8>)
    requires
        s1.len() == s2.len(),
        all_nybbles(s1),
        all_nybbles(s2),
        nyb_val(s1) < nyb_val(s2),
    ensures
        lex_lt(s1, s2),
    decreases s1.len(),
{
    if s1.len() == 0 {
        assert(false);
    } else {
        lemma_nyb_val_cons(s1);
        lemma_nyb_val_cons(s2);
        let p = pow16((s1.len() - 1) as nat);
        if s1[0] == s2[0] {
            lemma_val_lex(s1.skip(1), s2.skip(1));
        } else if s1[0] > s2[0] {
            lemma_nyb_val_bound(s2.skip(1));
            assert((s2[0] + 1) * p <= s1[0] * p) by {
                lemma_mul_inequality(s2[0] + 1, s1[0] as int, p as int);
            }
            assert((s2[0] + 1) * p == s2[0] * p + p) by (nonlinear_arith);
            assert(nyb_val(s2) < nyb_val(s1));
            assert(false);
        }
    }
}

/// Writing the same nybbles through glyphs preserves order in the ways the
/// alphabets allow.
proof fn lemma_glyph_run_lt(ta: Seq<u8>, tb: Seq<u8>)
    requires
        1 <= ta.len() <= tb.len(),
        all_nybbles(ta),
        all_nybbles(tb),
        ta.len() == tb.len() ==> lex_lt(ta, tb),
        ta.len() < tb.len() ==> order_kept(ta, tb),
    ensures
        lex_lt(glyph_run(ta), glyph_run(tb)),
    decreases ta.len(),
{
    let ga = glyph_run(ta);
    let gb = glyph_run(tb);
    assert(ga.len() == ta.len());
    assert(gb.len() == tb.len());
    if ta.len() == 1 {
        assert(ga[0] == spec_low_glyph(ta[0]));
        if tb.len() == 1 {
            if ta[0] == tb[0] {
                assert(ta.skip(1) =~= Seq::<u8>::empty());
                assert(tb.skip(1) =~= Seq::<u8>::empty());
                assert(!lex_lt(ta.skip(1), tb.skip(1)));
                assert(!lex_lt(ta, tb));
                assert(false);
            }
            assert(ta[0] < tb[0]);
            lemma_glyph_order(ta[0], tb[0]);
            assert(gb[0] == spec_low_glyph(tb[0]));
        } else {
            assert(gb[0] == spec_high_glyph(tb[0]));
            lemma_glyph_ranges(ta[0], tb[0]);
        }
        assert(ga[0] < gb[0]);
    } else {
        assert(ga[0] == spec_high_glyph(ta[0]));
        assert(gb[0] == spec_high_glyph(tb[0]));
        if ta[0] == tb[0] {
            assert(ga[0] == gb[0]);
            assert(ga.skip(1) =~= glyph_run(ta.skip(1)));
            assert(gb.skip(1) =~= glyph_run(tb.skip(1)));
            lemma_glyph_run_lt(ta.skip(1), tb.skip(1));
        } else {
            assert(ta[0] < tb[0]);
            lemma_glyph_order(ta[0], tb[0]);
            assert(ga[0] < gb[0]);
        }
    }
}

/// The significant nybbles denote the value itself.
proof fn lemma_significant_value(v: nat, w: nat)
    requires
        v < pow256(w),
    ensures
        nyb_val(significant_nybbles(v, w)) == v,
        all_nybbles(significant_nybbles(v, w)),
        significant_nybbles(v, w).len() > 0 ==> significant_nybbles(v, w)[0] != 0,
        significant_nybbles(v, w).len() <= 2 * w,
{
    let bytes = u_be_bytes(v, w);
    let ns = nybbles_of(bytes);
    let t = trim_zeros(ns);
    lemma_u_be_bytes_len(v, w);
    lemma_u_be_bytes_val(v, w);
    lemma_be_val_nybbles(bytes);
    lemma_trim_zeros_shape(ns);
    lemma_pair_nybbles(bytes);
    let k = ns.len() - t.len();
    lemma_nyb_val_zero_prefix(ns, k);
    assert(ns.skip(k) == t);
    assert(all_nybbles(t)) by {
        assert(forall|i: int| 0 <= i < t.len() ==> t[i] == ns[k + i]);
    }
}

/// Lexicographic order preservation: for values of one width, the encoded
/// strings compare in numeric order exactly on those pairs where the
/// smaller value's significant nybbles do not overtake the larger one's
/// within the positions before the smaller encoding's terminator
/// (`order_kept`).  Values with equally many significant nybbles always
/// satisfy this; a pair such as `0xff` and `0x1000` (significant nybbles
/// `[f, f]` against `[1, 0, 0, 0]`) does not, and their encodings `"zf"`
/// and `"hgg0"` indeed compare against the numeric order.
pub proof fn lemma_encode_order_preserved(a: nat, b: nat, w: nat)
    requires
        1 <= w,
        a < b,
        b < pow256(w),
        order_kept(significant_nybbles(a, w), significant_nybbles(b, w)),
    ensures
        lex_lt(encode_uint(a, w), encode_uint(b, w)),
{
    let ta = significant_nybbles(a, w);
    let tb = significant_nybbles(b, w);
    lemma_significant_value(a, w);
    lemma_significant_value(b, w);
    lemma_u_be_bytes_len(a, w);
    lemma_u_be_bytes_len(b, w);
    // The larger value is nonzero, so it has significant nybbles.
    if tb.len() == 0 {
        assert(b == 0);
        assert(false);
    }
    assert(encode_uint(b, w) == glyph_run(tb));
    // The smaller value cannot have more significant nybbles.
    if ta.len() > tb.len() {
        lemma_nyb_val_lower_bound(ta);
        lemma_nyb_val_bound(tb);
        lemma_pow16_monotone(tb.len(), (ta.len() - 1) as nat);
        assert(false);
    }
    if ta.len() == 0 {
        // Zero encodes as the single low glyph for zero, which precedes
        // every glyph a nonzero value can start with.
        assert(encode_uint(a, w) == seq![0x30u8]);
        let gb = glyph_run(tb);
        if tb.len() == 1 {
            assert(gb[0] == spec_low_glyph(tb[0]));
            assert(tb[0] != 0);
            lemma_glyph_order(0, tb[0]);
            assert(spec_low_glyph(0) == 0x30);
            assert(gb[0] > 0x30);
        } else {
            assert(gb[0] == spec_high_glyph(tb[0]));
            lemma_glyph_ranges(tb[0], tb[0]);
            assert(gb[0] > 0x30);
        }
        assert(lex_lt(seq![0x30u8], gb));
    } else {
        assert(encode_uint(a, w) == glyph_run(ta));
        if ta.len() == tb.len() {
            lemma_val_lex(ta, tb);
        }
        lemma_glyph_run_lt(ta, tb);
    }
}

/// Error scenarios, for every fixed width: an empty stream fails with
/// `UnexpectedEndOfInput`, and a stream whose first byte maps to no glyph,
/// or to the high-alphabet glyph for zero, fails with `InvalidData`.
pub proof fn lemma_decode_error_scenarios(s: Seq<u8>, w: nat)
    requires
        1 <= w,
    ensures
        s.len() == 0 ==> decode_uint(s, w) == Err::<nat, AzamError>(
            AzamError::UnexpectedEndOfInput,
        ),
        s.len() > 0 && spec_nybble_value(s[0]) is None ==> decode_uint(s, w) == Err::<
            nat,
            AzamError,
        >(AzamError::InvalidData),
        s.len() > 0 && spec_nybble_value(s[0]) == Some(16u8) ==> decode_uint(s, w) == Err::<
            nat,
            AzamError,
        >(AzamError::InvalidData),
{
    let c = take_at_most(s, 2 * w);
    if s.len() == 0 {
        assert(c == s);
        assert(decode_nybbles(c) == Err::<Seq<u8>, AzamError>(AzamError::UnexpectedEndOfInput));
    } else {
        assert(c.len() > 0);
        assert(c[0] == s[0]);
        if spec_nybble_value(s[0]) is None {
            assert(decode_nybbles(c) == Err::<Seq<u8>, AzamError>(AzamError::InvalidData));
        }
    }
}

} // verus!
