use vstd::prelude::*;
use vstd::arithmetic::div_mod::lemma_div_denominator;
use crate::alphabet::{
    higher_symbol, lower_symbol, spec_high_glyph, spec_low_glyph, lemma_glyph_ranges,
};
use crate::nybbles::{
    all_nybbles, lemma_pow256_values, lemma_trim_zeros_at, lemma_trim_zeros_shape,
    lemma_u_be_bytes_front, nybbles_of, pow256, trim_zeros, u_be_bytes,
};

verus! {

/// The symbols of one nonempty section, given its significant nybbles: high
/// glyphs throughout, except that the last nybble is written with the low
/// alphabet to terminate the section.
pub open spec fn glyph_run(t: Seq<u8>) -> Seq<u8>
    recommends
        t.len() > 0,
        all_nybbles(t),
{
    Seq::new(
        t.len(),
        |i: int| if i == t.len() - 1 { spec_low_glyph(t[i]) } else { spec_high_glyph(t[i]) },
    )
}

/// The encoding of one byte sequence as one section.  An empty input
/// encodes to nothing; an all-zero input encodes to the single low glyph
/// for zero; otherwise the leading zero nybbles are elided and the
/// remaining nybbles become a glyph run.
pub open spec fn encode_section(bytes: Seq<u8>) -> Seq<u8> {
    if bytes.len() == 0 {
        Seq::empty()
    } else {
        let t = trim_zeros(nybbles_of(bytes));
        if t.len() == 0 {
            seq![0x30u8]
        } else {
            glyph_run(t)
        }
    }
}

/// The concatenation of the encodings of several byte sequences, one
/// self-terminating section each, with no delimiters.
pub open spec fn encode_sections(sections: Seq<Seq<u8>>) -> Seq<u8>
    decreases sections.len(),
{
    if sections.len() == 0 {
        Seq::empty()
    } else {
        encode_section(sections[0]) + encode_sections(sections.skip(1))
    }
}

/// The encoding of the unsigned value `v` at a width of `w` bytes.
pub open spec fn encode_uint(v: nat, w: nat) -> Seq<u8> {
    encode_section(u_be_bytes(v, w))
}

/// The encoded symbols, read as text.  Every symbol is an ASCII byte, so
/// each byte is one character.
pub open spec fn glyph_chars(s: Seq<u8>) -> Seq<char> {
    s.map_values(|b: u8| b as char)
}

/// Every symbol an encoder emits is an ASCII byte.
pub proof fn lemma_encode_section_ascii(bytes: Seq<u8>)
    ensures
        forall|i: int| 0 <= i < encode_section(bytes).len() ==> encode_section(bytes)[i] < 128,
{
    if bytes.len() > 0 {
        let ns = nybbles_of(bytes);
        let t = trim_zeros(ns);
        lemma_trim_zeros_shape(ns);
        if t.len() > 0 {
            assert forall|i: int| 0 <= i < glyph_run(t).len() implies glyph_run(t)[i] < 128 by {
                let k = ns.len() - t.len();
                assert(t[i] == ns[k + i]);
                lemma_glyph_ranges(t[i], t[i]);
            }
        }
    }
}

/// Appending one more section to a list extends its encoding on the right.
pub proof fn lemma_encode_sections_snoc(sections: Seq<Seq<u8>>, last: Seq<u8>)
    ensures
        encode_sections(sections.push(last)) == encode_sections(sections) + encode_section(last),
    decreases sections.len(),
{
    if sections.len() == 0 {
        assert(sections.push(last).skip(1) =~= Seq::<Seq<u8>>::empty());
        assert(sections.push(last)[0] == last);
        assert(encode_sections(sections.push(last)) == encode_section(last) + encode_sections(
            Seq::<Seq<u8>>::empty(),
        ));
        assert(encode_sections(sections.push(last)) =~= encode_sections(sections) + encode_section(
            last,
        ));
    } else {
        lemma_encode_sections_snoc(sections.skip(1), last);
        assert(sections.push(last).skip(1) =~= sections.skip(1).push(last));
        assert(encode_sections(sections.push(last)) =~= encode_sections(sections) + encode_section(
            last,
        ));
    }
}

/// Encodes the byte slice `input` as one section, appending the symbols to
/// `writer`.  Returns the number of bytes consumed, which is all of them.
pub fn azam_encode_write(input: &[u8], writer: &mut Vec<u8>) -> (count: usize)
    ensures
        final(writer)@ == old(writer)@ + encode_section(input@),
        count == input@.len(),
{
    let n = input.len();
    if n == 0 {
        proof {
            assert(writer@ =~= writer@ + encode_section(input@));
        }
        return 0;
    }
    // Split the input into nybbles, most significant first.
    let mut ns: Vec<u8> = Vec::new();
    let mut i: usize = 0;
    while i < n
        invariant
            n == input@.len(),
            i <= n,
            ns@ == nybbles_of(input@.take(i as int)),
            ns@.len() == 2 * i,
            all_nybbles(ns@),
        decreases n - i,
    {
        let b = input[i];
        ns.push(b / 16);
        ns.push(b % 16);
        i += 1;
        proof {
            assert(ns@ =~= nybbles_of(input@.take(i as int)));
        }
    }
    proof {
        assert(input@.take(n as int) =~= input@);
    }
    // Skip the leading zero nybbles.
    let mut f: usize = 0;
    while f < ns.len() && ns[f] == 0
        invariant
            f <= ns@.len(),
            forall|j: int| 0 <= j < f ==> ns@[j] == 0,
        decreases ns@.len() - f,
    {
        f += 1;
    }
    proof {
        lemma_trim_zeros_at(ns@, f as int);
    }
    if f == ns.len() {
        // The input was all zero bytes: one low glyph for zero.
        writer.push(0x30);
        proof {
            assert(writer@ =~= old(writer)@ + encode_section(input@));
        }
    } else {
        let t_len = ns.len() - f;
        let ghost t = trim_zeros(ns@);
        // All but the last significant nybble are interior: high glyphs.
        let mut j = f;
        while j < ns.len() - 1
            invariant
                f <= j < ns@.len(),
                ns@.len() >= 1,
                f < ns@.len(),
                all_nybbles(ns@),
                t == ns@.skip(f as int),
                writer@ == old(writer)@ + Seq::new(
                    (j - f) as nat,
                    |p: int| spec_high_glyph(t[p]),
                ),
            decreases ns@.len() - j,
        {
            writer.push(higher_symbol(ns[j]));
            j += 1;
            proof {
                assert(writer@ =~= old(writer)@ + Seq::new(
                    (j - f) as nat,
                    |p: int| spec_high_glyph(t[p]),
                ));
            }
        }
        // The last nybble terminates the section: a low glyph.
        writer.push(lower_symbol(ns[j]));
        proof {
            assert(writer@ =~= old(writer)@ + glyph_run(t));
        }
    }
    n
}

/// Encodes a byte buffer as one section and returns the symbols as bytes.
pub fn azam_encode_bytes_to_bytes(value: Vec<u8>) -> (r: Vec<u8>)
    ensures
        r@ == encode_section(value@),
{
    let mut encoded: Vec<u8> = Vec::new();
    azam_encode_write(value.as_slice(), &mut encoded);
    encoded
}

/// Encodes a byte buffer as one section and returns the symbols as text.
pub fn azam_encode_bytes(value: Vec<u8>) -> (r: String)
    ensures
        r@ == glyph_chars(encode_section(value@)),
{
    proof {
        lemma_encode_section_ascii(value@);
    }
    let encoded = azam_encode_bytes_to_bytes(value);
    ascii_to_string(encoded)
}

/// Encodes each byte buffer as its own section and returns the
/// concatenation of the sections as bytes.
pub fn azam_encode_bytes_vec_to_bytes(value: Vec<Vec<u8>>) -> (r: Vec<u8>)
    ensures
        r@ == encode_sections(value.deep_view()),
{
    let mut encoded: Vec<u8> = Vec::new();
    let mut i: usize = 0;
    while i < value.len()
        invariant
            i <= value@.len(),
            encoded@ == encode_sections(value.deep_view().take(i as int)),
        decreases value@.len() - i,
    {
        let section = &value[i];
        azam_encode_write(section.as_slice(), &mut encoded);
        i += 1;
        proof {
            let dv = value.deep_view();
            assert(dv.take(i as int) =~= dv.take(i - 1).push(dv[i - 1]));
            lemma_encode_sections_snoc(dv.take(i - 1), dv[i - 1]);
            assert(dv[i - 1] == value@[i - 1]@);
        }
    }
    proof {
        assert(value.deep_view().take(value@.len() as int) =~= value.deep_view());
    }
    encoded
}

/// Encodes each byte buffer as its own section and returns the
/// concatenation of the sections as text.
pub fn azam_encode_bytes_vec(value: Vec<Vec<u8>>) -> (r: String)
    ensures
        r@ == glyph_chars(encode_sections(value.deep_view())),
{
    proof {
        lemma_encode_sections_ascii(value.deep_view());
    }
    let encoded = azam_encode_bytes_vec_to_bytes(value);
    ascii_to_string(encoded)
}

/// Every symbol of a multi-section encoding is an ASCII byte.
pub proof fn lemma_encode_sections_ascii(sections: Seq<Seq<u8>>)
    ensures
        forall|i: int|
            0 <= i < encode_sections(sections).len() ==> encode_sections(sections)[i] < 128,
    decreases sections.len(),
{
    if sections.len() > 0 {
        lemma_encode_section_ascii(sections[0]);
        lemma_encode_sections_ascii(sections.skip(1));
        let head = encode_section(sections[0]);
        let rest = encode_sections(sections.skip(1));
        assert forall|i: int| 0 <= i < encode_sections(sections).len() implies encode_sections(
            sections,
        )[i] < 128 by {
            if i < head.len() {
                assert(encode_sections(sections)[i] == head[i]);
            } else {
                assert(encode_sections(sections)[i] == rest[i - head.len()]);
            }
        }
    }
}

/// Relies on `String::from_utf8`: a buffer of ASCII bytes is valid UTF-8,
/// and decodes to exactly one character per byte, each with the byte's code.
#[verifier::external_body]
fn ascii_to_string(bytes: Vec<u8>) -> (s: String)
    requires
        forall|i: int| 0 <= i < bytes@.len() ==> bytes@[i] < 128,
    ensures
        s@ == glyph_chars(bytes@),
{
    String::from_utf8(bytes).unwrap()
}

/// Trait to extend types to support encoding to the Azam codec.
pub trait AzamEncode {
    /// The width in bytes of the big-endian form of this type.
    spec fn spec_byte_width() -> nat;

    /// The unsigned value being encoded.
    spec fn spec_as_nat(&self) -> nat;

    /// Encodes `self` as one section, appending the symbols to `writer`.
    /// Returns the number of bytes of the big-endian form consumed.
    fn azam_encode_write(&self, writer: &mut Vec<u8>) -> (count: usize)
        ensures
            final(writer)@ == old(writer)@ + encode_uint(
                self.spec_as_nat(),
                Self::spec_byte_width(),
            ),
            count == Self::spec_byte_width(),
    ;

    /// Encodes `self` as one section and returns the symbols as text.
    fn azam_encode(&self) -> (s: String)
        ensures
            s@ == glyph_chars(encode_uint(self.spec_as_nat(), Self::spec_byte_width())),
    ;
}

/// Encodes the low `width` bytes of `v`, which hold all of `v`, as one
/// section appended to `writer`.
fn encode_uint_write(v: u128, width: usize, writer: &mut Vec<u8>)
    requires
        1 <= width <= 16,
        (v as nat) < pow256(width as nat),
    ensures
        final(writer)@ == old(writer)@ + encode_uint(v as nat, width as nat),
{
    let mut bytes: Vec<u8> = Vec::new();
    let mut t = v;
    let mut i: usize = 0;
    proof {
        assert(pow256(0) == 1);
        assert((v as nat) / 1 == v as nat);
    }
    while i < width
        invariant
            i <= width,
            t as nat == (v as nat) / pow256(i as nat),
            bytes@ == u_be_bytes(v as nat, i as nat),
        decreases width - i,
    {
        bytes.insert(0, (t % 256) as u8);
        t = t / 256;
        i += 1;
        proof {
            lemma_u_be_bytes_front(v as nat, (i - 1) as nat);
            assert(bytes@ =~= u_be_bytes(v as nat, i as nat));
            crate::nybbles::lemma_pow256_pos((i - 1) as nat);
            lemma_div_denominator(v as int, pow256((i - 1) as nat) as int, 256);
            assert(pow256((i - 1) as nat) * 256 == pow256(i as nat));
        }
    }
    azam_encode_write(bytes.as_slice(), writer);
}

/// Encodes the low `width` bytes of `v`, which hold all of `v`, as one
/// section returned as text.
fn encode_uint_string(v: u128, width: usize) -> (s: String)
    requires
        1 <= width <= 16,
        (v as nat) < pow256(width as nat),
    ensures
        s@ == glyph_chars(encode_uint(v as nat, width as nat)),
{
    let mut bytes: Vec<u8> = Vec::new();
    encode_uint_write(v, width, &mut bytes);
    proof {
        lemma_encode_section_ascii(u_be_bytes(v as nat, width as nat));
        assert(bytes@ =~= encode_uint(v as nat, width as nat));
    }
    ascii_to_string(bytes)
}

impl AzamEncode for u8 {
    open spec fn spec_byte_width() -> nat {
        1
    }

    open spec fn spec_as_nat(&self) -> nat {
        *self as nat
    }

    fn azam_encode_write(&self, writer: &mut Vec<u8>) -> (count: usize) {
        proof {
            lemma_pow256_values();
        }
        encode_uint_write(*self as u128, 1, writer);
        1
    }

    fn azam_encode(&self) -> (s: String) {
        proof {
            lemma_pow256_values();
        }
        encode_uint_string(*self as u128, 1)
    }
}

impl AzamEncode for u16 {
    open spec fn spec_byte_width() -> nat {
        2
    }

    open spec fn spec_as_nat(&self) -> nat {
        *self as nat
    }

    fn azam_encode_write(&self, writer: &mut Vec<u8>) -> (count: usize) {
        proof {
            lemma_pow256_values();
        }
        encode_uint_write(*self as u128, 2, writer);
        2
    }

    fn azam_encode(&self) -> (s: String) {
        proof {
            lemma_pow256_values();
        }
        encode_uint_string(*self as u128, 2)
    }
}

impl AzamEncode for u32 {
    open spec fn spec_byte_width() -> nat {
        4
    }

    open spec fn spec_as_nat(&self) -> nat {
        *self as nat
    }

    fn azam_encode_write(&self, writer: &mut Vec<u8>) -> (count: usize) {
        proof {
            lemma_pow256_values();
        }
        encode_uint_write(*self as u128, 4, writer);
        4
    }

    fn azam_encode(&self) -> (s: String) {
        proof {
            lemma_pow256_values();
        }
        encode_uint_string(*self as u128, 4)
    }
}

impl AzamEncode for u64 {
    open spec fn spec_byte_width() -> nat {
        8
    }

    open spec fn spec_as_nat(&self) -> nat {
        *self as nat
    }

    fn azam_encode_write(&self, writer: &mut Vec<u8>) -> (count: usize) {
        proof {
            lemma_pow256_values();
        }
        encode_uint_write(*self as u128, 8, writer);
        8
    }

    fn azam_encode(&self) -> (s: String) {
        proof {
            lemma_pow256_values();
        }
        encode_uint_string(*self as u128, 8)
    }
}

impl AzamEncode for u128 {
    open spec fn spec_byte_width() -> nat {
        16
    }

    open spec fn spec_as_nat(&self) -> nat {
        *self as nat
    }

    fn azam_encode_write(&self, writer: &mut Vec<u8>) -> (count: usize) {
        proof {
            lemma_pow256_values();
        }
        encode_uint_write(*self, 16, writer);
        16
    }

    fn azam_encode(&self) -> (s: String) {
        proof {
            lemma_pow256_values();
        }
        encode_uint_string(*self, 16)
    }
}

} // verus!
