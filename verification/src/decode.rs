use vstd::prelude::*;
use vstd::string::StringSliceAdditionalSpecFns;
use crate::alphabet::{nybble_value, spec_nybble_value};
use crate::error::AzamError;
use crate::nybbles::{
    all_nybbles, be_val, lemma_be_val_bound, lemma_pair_take_step, lemma_pow256_monotone,
    lemma_pow256_values, pad_even, pair_bytes, pow256, section_bytes,
};

verus! {

/// The first `n` elements of `s`, or all of `s` when it is shorter: what a
/// reader limited to `n` symbols can see.
pub open spec fn take_at_most(s: Seq<u8>, n: nat) -> Seq<u8> {
    if s.len() <= n {
        s
    } else {
        s.take(n as int)
    }
}

/// The nybbles of the first section of symbol stream `s`: every symbol up
/// to and including the first low-alphabet symbol, each mapped to its
/// value.  Fails when a symbol is not a glyph, or when the stream ends
/// before a low-alphabet symbol.
pub open spec fn decode_nybbles(s: Seq<u8>) -> Result<Seq<u8>, AzamError>
    decreases s.len(),
{
    if s.len() == 0 {
        Err(AzamError::UnexpectedEndOfInput)
    } else {
        match spec_nybble_value(s[0]) {
            None => Err(AzamError::InvalidData),
            Some(v) => if v < 16 {
                Ok(seq![v])
            } else {
                match decode_nybbles(s.skip(1)) {
                    Ok(ns) => Ok(seq![(v - 16) as u8] + ns),
                    Err(e) => Err(e),
                }
            },
        }
    }
}

/// As `decode_nybbles`, and additionally rejects a section whose first
/// symbol is the high-alphabet glyph for zero: a canonical encoding elides
/// leading zero nybbles, so that glyph can never open a section.
pub open spec fn decode_section_nybbles(s: Seq<u8>) -> Result<Seq<u8>, AzamError> {
    if s.len() > 0 && spec_nybble_value(s[0]) == Some(16u8) {
        Err(AzamError::InvalidData)
    } else {
        decode_nybbles(s)
    }
}

/// A successful section decode consumes at least the terminator and at
/// most the whole stream, and yields nybble values.
pub proof fn lemma_decode_nybbles_ok(s: Seq<u8>)
    ensures
        decode_nybbles(s) matches Ok(ns) ==> 1 <= ns.len() <= s.len() && all_nybbles(ns),
    decreases s.len(),
{
    if s.len() > 0 {
        lemma_decode_nybbles_ok(s.skip(1));
    }
}

/// The sections of symbol stream `s`, decoded one after another until the
/// stream is exhausted.  Fails as soon as one section fails.
pub open spec fn decode_sections(s: Seq<u8>) -> Result<Seq<Seq<u8>>, AzamError>
    decreases s.len(),
    via decode_sections_decreases
{
    if s.len() == 0 {
        Ok(Seq::empty())
    } else {
        match decode_section_nybbles(s) {
            Err(e) => Err(e),
            Ok(ns) => match decode_sections(s.skip(ns.len() as int)) {
                Err(e) => Err(e),
                Ok(rest) => Ok(seq![section_bytes(ns)] + rest),
            },
        }
    }
}

#[via_fn]
proof fn decode_sections_decreases(s: Seq<u8>) {
    lemma_decode_nybbles_ok(s);
}

/// The value decoded for a fixed width of `w` bytes: one section read from
/// at most `2 * w` symbols, zero-extended on the left to `w` bytes.  (Zero
/// bytes on the left do not change the value, so the value of the section
/// bytes themselves is the result.)
pub open spec fn decode_uint(s: Seq<u8>, w: nat) -> Result<nat, AzamError> {
    match decode_section_nybbles(take_at_most(s, 2 * w)) {
        Ok(ns) => Ok(be_val(section_bytes(ns))),
        Err(e) => Err(e),
    }
}

/// Relates the whole decode of `s` to the decode still to do after the
/// interior symbols yielding `taken` have been consumed.
spec fn decode_resumes(s: Seq<u8>, taken: Seq<u8>) -> bool {
    match decode_nybbles(s.skip(taken.len() as int)) {
        Ok(r) => decode_nybbles(s) == Ok::<Seq<u8>, AzamError>(taken + r),
        Err(e) => decode_nybbles(s) == Err::<Seq<u8>, AzamError>(e),
    }
}

/// Decodes one section of up to `limit` symbols of `input`, starting at
/// `*pos`.  On success the decoded bytes are appended to `writer`, `*pos`
/// advances past the section, and the number of symbols consumed is
/// returned.  On failure nothing is changed.
pub fn azam_decode_read_until(
    input: &[u8],
    pos: &mut usize,
    writer: &mut Vec<u8>,
    limit: u64,
) -> (r: Result<usize, AzamError>)
    requires
        *old(pos) <= input@.len(),
    ensures
        ({
            let s = take_at_most(input@.skip(*old(pos) as int), limit as nat);
            match r {
                Ok(count) => {
                    &&& decode_section_nybbles(s) matches Ok(ns)
                    &&& count == ns.len()
                    &&& final(writer)@ == old(writer)@ + section_bytes(ns)
                    &&& *final(pos) == *old(pos) + count
                    &&& *final(pos) <= input@.len()
                },
                Err(e) => {
                    &&& decode_section_nybbles(s) == Err::<Seq<u8>, AzamError>(e)
                    &&& final(writer)@ == old(writer)@
                    &&& *final(pos) == *old(pos)
                },
            }
        }),
{
    let start = *pos;
    let end: usize = if limit <= (input.len() - start) as u64 {
        start + (limit as usize)
    } else {
        input.len()
    };
    let ghost s = take_at_most(input@.skip(start as int), limit as nat);
    proof {
        assert(s =~= input@.subrange(start as int, end as int));
    }
    let mut ns: Vec<u8> = Vec::new();
    let mut i: usize = start;
    let mut done = false;
    proof {
        assert(s.skip(0) =~= s);
        assert(decode_resumes(s, Seq::<u8>::empty())) by {
            match decode_nybbles(s) {
                Ok(r) => {
                    assert(Seq::<u8>::empty() + r =~= r);
                },
                Err(e) => {},
            }
        }
        assert(ns@ =~= Seq::<u8>::empty());
    }
    while i < end && !done
        invariant
            start == *old(pos),
            *pos == start,
            writer@ == old(writer)@,
            start <= i <= end <= input@.len(),
            s == take_at_most(input@.skip(start as int), limit as nat),
            s == input@.subrange(start as int, end as int),
            s.len() == end - start,
            ns@.len() == i - start,
            all_nybbles(ns@),
            !done ==> decode_resumes(s, ns@),
            i > start ==> spec_nybble_value(s[0]) != Some(16u8),
            done ==> decode_section_nybbles(s) == Ok::<Seq<u8>, AzamError>(ns@),
            done ==> ns@.len() >= 1,
        decreases end - i,
    {
        let ghost m = i - start;
        proof {
            assert(s[m] == input@[i as int]);
            assert(s.skip(m)[0] == s[m]);
            assert(s.skip(m).len() > 0);
        }
        let b = input[i];
        match nybble_value(b) {
            None => {
                proof {
                    assert(decode_nybbles(s.skip(m)) == Err::<Seq<u8>, AzamError>(
                        AzamError::InvalidData,
                    ));
                    assert(decode_nybbles(s) == Err::<Seq<u8>, AzamError>(AzamError::InvalidData));
                }
                return Err(AzamError::InvalidData);
            },
            Some(v) => {
                if i == start && v == 0x10 {
                    proof {
                        assert(s.len() > 0);
                        assert(spec_nybble_value(s[0]) == Some(16u8));
                    }
                    return Err(AzamError::InvalidData);
                }
                let ghost ns_old = ns@;
                ns.push(v % 16);
                i += 1;
                if v < 0x10 {
                    done = true;
                    proof {
                        assert(decode_nybbles(s.skip(m)) == Ok::<Seq<u8>, AzamError>(seq![v]));
                        assert(ns_old + seq![v] =~= ns@);
                        assert(decode_nybbles(s) == Ok::<Seq<u8>, AzamError>(ns@));
                        assert(spec_nybble_value(s[0]) != Some(16u8));
                        assert(decode_section_nybbles(s) == decode_nybbles(s));
                    }
                } else {
                    proof {
                        assert(v % 16 == v - 16);
                        assert(s.skip(m).skip(1) =~= s.skip(m + 1));
                        assert(decode_resumes(s, ns@)) by {
                            match decode_nybbles(s.skip(m + 1)) {
                                Ok(r) => {
                                    assert(decode_nybbles(s.skip(m)) == Ok::<Seq<u8>, AzamError>(
                                        seq![(v - 16) as u8] + r,
                                    ));
                                    assert(ns_old + (seq![(v - 16) as u8] + r) =~= ns@ + r);
                                },
                                Err(e) => {},
                            }
                        }
                        assert(spec_nybble_value(s[0]) != Some(16u8));
                    }
                }
            },
        }
    }
    if !done {
        proof {
            assert(i == end);
            assert(s.skip(s.len() as int) =~= Seq::<u8>::empty());
            assert(decode_nybbles(s) == Err::<Seq<u8>, AzamError>(AzamError::UnexpectedEndOfInput));
        }
        return Err(AzamError::UnexpectedEndOfInput);
    }
    // Reassemble the nybbles into bytes.  When the count is odd the first
    // nybble forms a byte on its own: it is the low nybble of a byte whose
    // high nybble is an elided zero.
    let count = ns.len();
    let ghost pe = pad_even(ns@);
    let mut bytes: Vec<u8> = Vec::new();
    let mut j: usize = 0;
    if count % 2 == 1 {
        bytes.push(ns[0]);
        j = 1;
        proof {
            assert(pe == seq![0u8] + ns@);
            assert(pe.take(2) =~= seq![0u8, ns@[0]]);
            assert(pair_bytes(pe.take(2)) =~= seq![ns@[0]]);
        }
    } else {
        proof {
            assert(pair_bytes(pe.take(0)) =~= Seq::<u8>::empty());
        }
    }
    while j < count - 1
        invariant
            j <= count,
            1 <= count == ns@.len(),
            (j + (count % 2)) % 2 == 0,
            pe == pad_even(ns@),
            all_nybbles(ns@),
            j + count % 2 <= pe.len(),
            bytes@ == pair_bytes(pe.take(j + (count % 2) as int)),
        decreases count - j,
    {
        let ghost m = j + (count % 2) as int;
        proof {
            assert(pe[m] == ns@[j as int]);
            assert(pe[m + 1] == ns@[j + 1]);
            lemma_pair_take_step(pe, m);
        }
        bytes.push(ns[j] * 16 + ns[j + 1]);
        j += 2;
    }
    proof {
        assert(j == count);
        assert(pe.take(count + (count % 2) as int) =~= pe);
        assert(bytes@ == section_bytes(ns@));
    }
    writer.append(&mut bytes);
    *pos = i;
    Ok(count)
}

/// Decodes one section of `input` starting at `*pos`, reading as far as
/// the end of the input if need be.  On success the decoded bytes are
/// appended to `writer`, `*pos` advances past the section, and the number
/// of symbols consumed is returned.  On failure nothing is changed.
pub fn azam_decode_read(input: &[u8], pos: &mut usize, writer: &mut Vec<u8>) -> (r: Result<
    usize,
    AzamError,
>)
    requires
        *old(pos) <= input@.len(),
    ensures
        ({
            let s = input@.skip(*old(pos) as int);
            match r {
                Ok(count) => {
                    &&& decode_section_nybbles(s) matches Ok(ns)
                    &&& count == ns.len()
                    &&& final(writer)@ == old(writer)@ + section_bytes(ns)
                    &&& *final(pos) == *old(pos) + count
                    &&& *final(pos) <= input@.len()
                },
                Err(e) => {
                    &&& decode_section_nybbles(s) == Err::<Seq<u8>, AzamError>(e)
                    &&& final(writer)@ == old(writer)@
                    &&& *final(pos) == *old(pos)
                },
            }
        }),
{
    let start = *pos;
    let remaining = (input.len() - start) as u64;
    let r = azam_decode_read_until(input, pos, writer, remaining);
    proof {
        assert(take_at_most(input@.skip(start as int), remaining as nat) =~= input@.skip(
            start as int,
        ));
    }
    r
}

/// Decodes the first section of `value` and returns its bytes.
pub fn azam_decode_bytes(value: &str) -> (r: Result<Vec<u8>, AzamError>)
    ensures
        ({
            let s = value.spec_bytes();
            match r {
                Ok(b) => decode_section_nybbles(s) matches Ok(ns) && b@ == section_bytes(ns),
                Err(e) => decode_section_nybbles(s) == Err::<Seq<u8>, AzamError>(e),
            }
        }),
{
    let input = value.as_bytes();
    let mut pos: usize = 0;
    let mut bytes: Vec<u8> = Vec::new();
    let r = azam_decode_read(input, &mut pos, &mut bytes);
    proof {
        assert(input@.skip(0) =~= input@);
    }
    match r {
        Ok(_) => Ok(bytes),
        Err(e) => Err(e),
    }
}

/// Decodes the first section of `value`, reading at most `limit` symbols,
/// and returns its bytes.
pub fn azam_decode_bytes_until(value: &str, limit: u64) -> (r: Result<Vec<u8>, AzamError>)
    ensures
        ({
            let s = take_at_most(value.spec_bytes(), limit as nat);
            match r {
                Ok(b) => decode_section_nybbles(s) matches Ok(ns) && b@ == section_bytes(ns),
                Err(e) => decode_section_nybbles(s) == Err::<Seq<u8>, AzamError>(e),
            }
        }),
{
    let input = value.as_bytes();
    let mut pos: usize = 0;
    let mut bytes: Vec<u8> = Vec::new();
    let r = azam_decode_read_until(input, &mut pos, &mut bytes, limit);
    proof {
        assert(input@.skip(0) =~= input@);
    }
    match r {
        Ok(_) => Ok(bytes),
        Err(e) => Err(e),
    }
}

/// Decodes every section of `value`, one after another until the string is
/// exhausted, and returns one byte buffer per section.
pub fn azam_decode_bytes_vec(value: &str) -> (r: Result<Vec<Vec<u8>>, AzamError>)
    ensures
        ({
            let s = value.spec_bytes();
            match r {
                Ok(vv) => decode_sections(s) == Ok::<Seq<Seq<u8>>, AzamError>(vv.deep_view()),
                Err(e) => decode_sections(s) == Err::<Seq<Seq<u8>>, AzamError>(e),
            }
        }),
{
    let input = value.as_bytes();
    let n = input.len();
    let mut all_bytes: Vec<Vec<u8>> = Vec::new();
    let mut index: usize = 0;
    proof {
        assert(input@.skip(0) =~= input@);
        assert(all_bytes.deep_view() =~= Seq::<Seq<u8>>::empty());
        match decode_sections(input@) {
            Ok(rest) => {
                assert(all_bytes.deep_view() + rest =~= rest);
            },
            Err(e) => {},
        }
    }
    while index < n
        invariant
            index <= n == input@.len(),
            input@ == value.spec_bytes(),
            (match decode_sections(input@.skip(index as int)) {
                Ok(rest) => decode_sections(input@) == Ok::<Seq<Seq<u8>>, AzamError>(
                    all_bytes.deep_view() + rest,
                ),
                Err(e) => decode_sections(input@) == Err::<Seq<Seq<u8>>, AzamError>(e),
            }),
        decreases n - index,
    {
        let ghost index0 = index as int;
        let ghost dv0 = all_bytes.deep_view();
        let mut bytes: Vec<u8> = Vec::new();
        let mut pos = index;
        let r = azam_decode_read(input, &mut pos, &mut bytes);
        match r {
            Err(e) => {
                proof {
                    assert(input@.skip(index0).len() > 0);
                }
                return Err(e);
            },
            Ok(read_size) => {
                proof {
                    let si = input@.skip(index0);
                    let ns = decode_section_nybbles(si)->Ok_0;
                    lemma_decode_nybbles_ok(si);
                    assert(bytes@ =~= section_bytes(ns));
                    assert(si.skip(ns.len() as int) =~= input@.skip(index0 + ns.len()));
                }
                all_bytes.push(bytes);
                index = pos;
                proof {
                    let si = input@.skip(index0);
                    let ns = decode_section_nybbles(si)->Ok_0;
                    assert(all_bytes.deep_view() =~~= dv0.push(section_bytes(ns)));
                    match decode_sections(input@.skip(index as int)) {
                        Ok(rest) => {
                            assert(decode_sections(si) == Ok::<Seq<Seq<u8>>, AzamError>(
                                seq![section_bytes(ns)] + rest,
                            ));
                            assert(dv0 + (seq![section_bytes(ns)] + rest) =~= all_bytes.deep_view()
                                + rest);
                        },
                        Err(e) => {},
                    }
                }
            },
        }
    }
    proof {
        assert(input@.skip(n as int) =~= Seq::<u8>::empty());
        assert(all_bytes.deep_view() + Seq::<Seq<u8>>::empty() =~= all_bytes.deep_view());
    }
    Ok(all_bytes)
}

/// Reads one section of at most `2 * width` symbols and returns its value,
/// which fits in `width` bytes.
fn decode_uint_read(input: &[u8], pos: &mut usize, width: usize) -> (r: Result<u128, AzamError>)
    requires
        *old(pos) <= input@.len(),
        1 <= width <= 16,
    ensures
        ({
            let s = input@.skip(*old(pos) as int);
            match r {
                Ok(v) => {
                    &&& decode_uint(s, width as nat) == Ok::<nat, AzamError>(v as nat)
                    &&& (v as nat) < pow256(width as nat)
                    &&& decode_section_nybbles(take_at_most(s, 2 * width as nat)) matches Ok(ns)
                    &&& *final(pos) == *old(pos) + ns.len()
                    &&& *final(pos) <= input@.len()
                },
                Err(e) => {
                    &&& decode_uint(s, width as nat) == Err::<nat, AzamError>(e)
                    &&& *final(pos) == *old(pos)
                },
            }
        }),
{
    let mut bytes: Vec<u8> = Vec::new();
    let r = azam_decode_read_until(input, pos, &mut bytes, (2 * width) as u64);
    match r {
        Err(e) => Err(e),
        Ok(_count) => {
            let ghost s = input@.skip(*old(pos) as int);
            let ghost capped = take_at_most(s, 2 * width as nat);
            let ghost ns = decode_section_nybbles(capped)->Ok_0;
            proof {
                lemma_decode_nybbles_ok(capped);
                assert(bytes@ =~= section_bytes(ns));
                assert(ns.len() <= capped.len() <= 2 * width);
                assert(pad_even(ns).len() <= 2 * width);
                assert(bytes@.len() <= width);
                lemma_pow256_values();
            }
            let mut v: u128 = 0;
            let mut k: usize = 0;
            while k < bytes.len()
                invariant
                    k <= bytes@.len() <= width <= 16,
                    v as nat == be_val(bytes@.take(k as int)),
                    (v as nat) < pow256(k as nat),
                decreases bytes@.len() - k,
            {
                proof {
                    assert(bytes@.take(k + 1).drop_last() =~= bytes@.take(k as int));
                    assert(bytes@.take(k + 1).last() == bytes@[k as int]);
                    lemma_pow256_monotone((k + 1) as nat, 16);
                    lemma_pow256_values();
                    assert((v as nat) * 256 <= (pow256(k as nat) - 1) * 256) by {
                        vstd::arithmetic::mul::lemma_mul_inequality(
                            v as int,
                            pow256(k as nat) - 1,
                            256,
                        );
                    }
                }
                v = v * 256 + (bytes[k] as u128);
                k += 1;
            }
            proof {
                assert(bytes@.take(bytes@.len() as int) =~= bytes@);
                lemma_be_val_bound(bytes@);
                lemma_pow256_monotone(bytes@.len(), width as nat);
            }
            Ok(v)
        },
    }
}

/// Trait to extend types to support decoding of Azam encoded strings.
pub trait AzamDecode: Sized {
    /// The width in bytes of the big-endian form of this type.
    spec fn spec_byte_width() -> nat;

    /// The unsigned value held by `self`.
    spec fn spec_as_nat(&self) -> nat;

    /// Decodes one section of at most twice this type's byte width in
    /// symbols from `input`, starting at `*pos`, and returns the value.
    /// On success `*pos` advances past the section; on failure it is
    /// unchanged.
    fn azam_decode_read(input: &[u8], pos: &mut usize) -> (r: Result<Self, AzamError>)
        requires
            *old(pos) <= input@.len(),
        ensures
            ({
                let s = input@.skip(*old(pos) as int);
                match r {
                    Ok(v) => {
                        &&& decode_uint(s, Self::spec_byte_width()) == Ok::<nat, AzamError>(
                            v.spec_as_nat(),
                        )
                        &&& decode_section_nybbles(
                            take_at_most(s, 2 * Self::spec_byte_width()),
                        ) matches Ok(ns)
                        &&& *final(pos) == *old(pos) + ns.len()
                        &&& *final(pos) <= input@.len()
                    },
                    Err(e) => {
                        &&& decode_uint(s, Self::spec_byte_width()) == Err::<nat, AzamError>(e)
                        &&& *final(pos) == *old(pos)
                    },
                }
            }),
    ;

    /// Decodes the first section of `value` and returns the value.
    fn azam_decode(value: &str) -> (r: Result<Self, AzamError>)
        ensures
            ({
                let s = value.spec_bytes();
                match r {
                    Ok(v) => decode_uint(s, Self::spec_byte_width()) == Ok::<nat, AzamError>(
                        v.spec_as_nat(),
                    ),
                    Err(e) => decode_uint(s, Self::spec_byte_width()) == Err::<nat, AzamError>(e),
                }
            }),
    ;
}

impl AzamDecode for u8 {
    open spec fn spec_byte_width() -> nat {
        1
    }

    open spec fn spec_as_nat(&self) -> nat {
        *self as nat
    }

    fn azam_decode_read(input: &[u8], pos: &mut usize) -> (r: Result<Self, AzamError>) {
        proof {
            lemma_pow256_values();
        }
        match decode_uint_read(input, pos, 1) {
            Ok(v) => Ok(v as u8),
            Err(e) => Err(e),
        }
    }

    fn azam_decode(value: &str) -> (r: Result<Self, AzamError>) {
        let input = value.as_bytes();
        let mut pos: usize = 0;
        let r = Self::azam_decode_read(input, &mut pos);
        proof {
            assert(input@.skip(0) =~= input@);
        }
        r
    }
}

impl AzamDecode for u16 {
    open spec fn spec_byte_width() -> nat {
        2
    }

    open spec fn spec_as_nat(&self) -> nat {
        *self as nat
    }

    fn azam_decode_read(input: &[u8], pos: &mut usize) -> (r: Result<Self, AzamError>) {
        proof {
            lemma_pow256_values();
        }
        match decode_uint_read(input, pos, 2) {
            Ok(v) => Ok(v as u16),
            Err(e) => Err(e),
        }
    }

    fn azam_decode(value: &str) -> (r: Result<Self, AzamError>) {
        let input = value.as_bytes();
        let mut pos: usize = 0;
        let r = Self::azam_decode_read(input, &mut pos);
        proof {
            assert(input@.skip(0) =~= input@);
        }
        r
    }
}

impl AzamDecode for u32 {
    open spec fn spec_byte_width() -> nat {
        4
    }

    open spec fn spec_as_nat(&self) -> nat {
        *self as nat
    }

    fn azam_decode_read(input: &[u8], pos: &mut usize) -> (r: Result<Self, AzamError>) {
        proof {
            lemma_pow256_values();
        }
        match decode_uint_read(input, pos, 4) {
            Ok(v) => Ok(v as u32),
            Err(e) => Err(e),
        }
    }

    fn azam_decode(value: &str) -> (r: Result<Self, AzamError>) {
        let input = value.as_bytes();
        let mut pos: usize = 0;
        let r = Self::azam_decode_read(input, &mut pos);
        proof {
            assert(input@.skip(0) =~= input@);
        }
        r
    }
}

impl AzamDecode for u64 {
    open spec fn spec_byte_width() -> nat {
        8
    }

    open spec fn spec_as_nat(&self) -> nat {
        *self as nat
    }

    fn azam_decode_read(input: &[u8], pos: &mut usize) -> (r: Result<Self, AzamError>) {
        proof {
            lemma_pow256_values();
        }
        match decode_uint_read(input, pos, 8) {
            Ok(v) => Ok(v as u64),
            Err(e) => Err(e),
        }
    }

    fn azam_decode(value: &str) -> (r: Result<Self, AzamError>) {
        let input = value.as_bytes();
        let mut pos: usize = 0;
        let r = Self::azam_decode_read(input, &mut pos);
        proof {
            assert(input@.skip(0) =~= input@);
        }
        r
    }
}

impl AzamDecode for u128 {
    open spec fn spec_byte_width() -> nat {
        16
    }

    open spec fn spec_as_nat(&self) -> nat {
        *self as nat
    }

    fn azam_decode_read(input: &[u8], pos: &mut usize) -> (r: Result<Self, AzamError>) {
        proof {
            lemma_pow256_values();
        }
        decode_uint_read(input, pos, 16)
    }

    fn azam_decode(value: &str) -> (r: Result<Self, AzamError>) {
        let input = value.as_bytes();
        let mut pos: usize = 0;
        let r = Self::azam_decode_read(input, &mut pos);
        proof {
            assert(input@.skip(0) =~= input@);
        }
        r
    }
}

} // verus!
