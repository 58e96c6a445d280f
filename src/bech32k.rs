//! bech32k: the bech32 variant used by KeyURIs, with `;` as separator.
use vstd::arithmetic::div_mod::{lemma_fundamental_div_mod, lemma_fundamental_div_mod_converse, lemma_mod_breakdown};
use vstd::arithmetic::power2::{lemma2_to64, lemma_pow2_adds, lemma_pow2_pos, lemma_pow2_subtracts, pow2};
use vstd::prelude::*;
use vstd::string::StringSliceAdditionalSpecFns;
use vstd::utf8::{encode_utf8, is_ascii_chars, is_ascii_chars_encode_utf8};
use crate::strings::{ascii_chars, push_char, string_from_ascii};

verus! {

/// Shortest accepted bech32k string, in bytes.
pub const MIN_LENGTH: usize = 8;

/// Longest accepted bech32k string, in bytes.
pub const MAX_LENGTH: usize = 90;

/// Separator between the prefix and the encoded data.
pub const SEPARATOR: char = ';';

/// Errors of bech32k decoding.
#[derive(Clone, Copy, Debug, PartialEq, Eq, Structural)]
pub enum Error {
    /// The string has no `;`.
    SeparatorMissing,
    /// The checksum does not match.
    ChecksumInvalid,
    /// The string, its prefix or its data part is too short or too long.
    LengthInvalid,
    /// A byte that may not appear where it stands.
    CharInvalid { byte: u8 },
    /// A value too wide for the source digit width.
    DataInvalid { byte: u8 },
    /// Leftover bits that are too many or not zero.
    PaddingInvalid,
    /// Both upper and lower case letters.
    CaseInvalid,
}

impl Error {
    /// A human-readable description of the error.
    pub fn describe(&self) -> String {
        match self {
            Error::SeparatorMissing => "missing separator character: \";\"".to_owned(),
            Error::ChecksumInvalid => "checksum mismatch".to_owned(),
            Error::LengthInvalid => "invalid KeyURI length (min 8, max 90)".to_owned(),
            Error::CharInvalid { .. } => "character invalid".to_owned(),
            Error::DataInvalid { .. } => "data invalid".to_owned(),
            Error::PaddingInvalid => "padding invalid".to_owned(),
            Error::CaseInvalid => "string contains mixed-case".to_owned(),
        }
    }
}

// ---------------------------------------------------------------------------
// The symbol alphabet: `qpzry9x8gf2tvdw0s3jn54khce6mua7l`
/// The ASCII byte that stands for the 5-bit value `v`.
pub open spec fn charset_symbol(v: u8) -> u8 {
    match v {
        0 => 0x71u8,  // q
        1 => 0x70u8,  // p
        2 => 0x7au8,  // z
        3 => 0x72u8,  // r
        4 => 0x79u8,  // y
        5 => 0x39u8,  // 9
        6 => 0x78u8,  // x
        7 => 0x38u8,  // 8
        8 => 0x67u8,  // g
        9 => 0x66u8,  // f
        10 => 0x32u8,  // 2
        11 => 0x74u8,  // t
        12 => 0x76u8,  // v
        13 => 0x64u8,  // d
        14 => 0x77u8,  // w
        15 => 0x30u8,  // 0
        16 => 0x73u8,  // s
        17 => 0x33u8,  // 3
        18 => 0x6au8,  // j
        19 => 0x6eu8,  // n
        20 => 0x35u8,  // 5
        21 => 0x34u8,  // 4
        22 => 0x6bu8,  // k
        23 => 0x68u8,  // h
        24 => 0x63u8,  // c
        25 => 0x65u8,  // e
        26 => 0x36u8,  // 6
        27 => 0x6du8,  // m
        28 => 0x75u8,  // u
        29 => 0x61u8,  // a
        30 => 0x37u8,  // 7
        _ => 0x6cu8,  // l
    }
}

/// The 5-bit value of a lower-case alphabet symbol; 255 for any other byte.
pub open spec fn charset_value(b: u8) -> u8 {
    match b {
        0x71u8 => 0,
        0x70u8 => 1,
        0x7au8 => 2,
        0x72u8 => 3,
        0x79u8 => 4,
        0x39u8 => 5,
        0x78u8 => 6,
        0x38u8 => 7,
        0x67u8 => 8,
        0x66u8 => 9,
        0x32u8 => 10,
        0x74u8 => 11,
        0x76u8 => 12,
        0x64u8 => 13,
        0x77u8 => 14,
        0x30u8 => 15,
        0x73u8 => 16,
        0x33u8 => 17,
        0x6au8 => 18,
        0x6eu8 => 19,
        0x35u8 => 20,
        0x34u8 => 21,
        0x6bu8 => 22,
        0x68u8 => 23,
        0x63u8 => 24,
        0x65u8 => 25,
        0x36u8 => 26,
        0x6du8 => 27,
        0x75u8 => 28,
        0x61u8 => 29,
        0x37u8 => 30,
        0x6cu8 => 31,
        _ => 255,
    }
}

fn symbol_of(v: u8) -> (r: u8)
    ensures
        r == charset_symbol(v),
{
    match v {
        0 => 0x71u8,
        1 => 0x70u8,
        2 => 0x7au8,
        3 => 0x72u8,
        4 => 0x79u8,
        5 => 0x39u8,
        6 => 0x78u8,
        7 => 0x38u8,
        8 => 0x67u8,
        9 => 0x66u8,
        10 => 0x32u8,
        11 => 0x74u8,
        12 => 0x76u8,
        13 => 0x64u8,
        14 => 0x77u8,
        15 => 0x30u8,
        16 => 0x73u8,
        17 => 0x33u8,
        18 => 0x6au8,
        19 => 0x6eu8,
        20 => 0x35u8,
        21 => 0x34u8,
        22 => 0x6bu8,
        23 => 0x68u8,
        24 => 0x63u8,
        25 => 0x65u8,
        26 => 0x36u8,
        27 => 0x6du8,
        28 => 0x75u8,
        29 => 0x61u8,
        30 => 0x37u8,
        _ => 0x6cu8,
    }
}

fn value_of(b: u8) -> (r: u8)
    ensures
        r == charset_value(b),
{
    match b {
        0x71u8 => 0,
        0x70u8 => 1,
        0x7au8 => 2,
        0x72u8 => 3,
        0x79u8 => 4,
        0x39u8 => 5,
        0x78u8 => 6,
        0x38u8 => 7,
        0x67u8 => 8,
        0x66u8 => 9,
        0x32u8 => 10,
        0x74u8 => 11,
        0x76u8 => 12,
        0x64u8 => 13,
        0x77u8 => 14,
        0x30u8 => 15,
        0x73u8 => 16,
        0x33u8 => 17,
        0x6au8 => 18,
        0x6eu8 => 19,
        0x35u8 => 20,
        0x34u8 => 21,
        0x6bu8 => 22,
        0x68u8 => 23,
        0x63u8 => 24,
        0x65u8 => 25,
        0x36u8 => 26,
        0x6du8 => 27,
        0x75u8 => 28,
        0x61u8 => 29,
        0x37u8 => 30,
        0x6cu8 => 31,
        _ => 255,
    }
}

/// Every symbol decodes back to its value.
pub proof fn lemma_symbol_value(v: u8)
    requires
        v < 32,
    ensures
        charset_value(charset_symbol(v)) == v,
        is_data_char(charset_symbol(v)),
        !is_upper_ascii(charset_symbol(v)),
{
}

// ---------------------------------------------------------------------------
// Checksum
/// One step of the BCH checksum: shift in a 5-bit value and reduce by the generator.
pub open spec fn polymod_step(r: u32, v: u8) -> u32 {
    let b = r >> 25u32;
    let x0 = ((r & 0x1ff_ffffu32) << 5u32) ^ (v as u32);
    let x1 = if b & 1u32 != 0 { x0 ^ 0x3b6a_57b2u32 } else { x0 };
    let x2 = if b & 2u32 != 0 { x1 ^ 0x2650_8e6du32 } else { x1 };
    let x3 = if b & 4u32 != 0 { x2 ^ 0x1ea1_19fau32 } else { x2 };
    let x4 = if b & 8u32 != 0 { x3 ^ 0x3d42_33ddu32 } else { x3 };
    if b & 16u32 != 0 { x4 ^ 0x2a14_62b3u32 } else { x4 }
}

/// The checksum residue of a sequence of 5-bit values.
pub open spec fn polymod(values: Seq<u8>) -> u32
    decreases values.len(),
{
    if values.len() == 0 {
        1
    } else {
        polymod_step(polymod(values.drop_last()), values.last())
    }
}

/// The prefix bytes, as the checksum sees them: high bits, a zero, low bits.
pub open spec fn expand_prefix(prefix: Seq<u8>) -> Seq<u8> {
    prefix.map_values(|b: u8| b >> 5u8) + seq![0u8] + prefix.map_values(|b: u8| b & 0x1fu8)
}

/// The six checksum symbols' values for a prefix and data values.
pub open spec fn checksum_of(prefix: Seq<u8>, data: Seq<u8>) -> Seq<u8> {
    let pm = polymod(expand_prefix(prefix) + data + seq![0u8, 0u8, 0u8, 0u8, 0u8, 0u8]) ^ 1u32;
    Seq::new(6, |p: int| ((pm >> (5 * (5 - p)) as u32) & 0x1fu32) as u8)
}

/// Checksum over a prefix and data values.
pub struct Checksum(pub Vec<u8>);

impl Checksum {
    /// Compute the checksum of a prefix and 5-bit data values.
    pub fn new(prefix: &[u8], data: &[u8]) -> (r: Self)
        requires
            2 * prefix@.len() + data@.len() + 7 <= usize::MAX,
        ensures
            r.0@ == checksum_of(prefix@, data@),
    {
        let mut payload = Self::expand_prefix(prefix);
        let mut i: usize = 0;
        while i < data.len()
            invariant
                i <= data@.len(),
                payload@ == expand_prefix(prefix@) + data@.subrange(0, i as int),
            decreases data@.len() - i,
        {
            payload.push(data[i]);
            i = i + 1;
            assert(payload@ =~= expand_prefix(prefix@) + data@.subrange(0, i as int));
        }
        let mut k: usize = 0;
        while k < 6
            invariant
                k <= 6,
                payload@ == expand_prefix(prefix@) + data@ + Seq::new(k as nat, |j: int| 0u8),
            decreases 6 - k,
        {
            payload.push(0);
            k = k + 1;
            assert(payload@ =~= expand_prefix(prefix@) + data@ + Seq::new(k as nat, |j: int| 0u8));
        }
        assert(Seq::new(6, |j: int| 0u8) =~= seq![0u8, 0u8, 0u8, 0u8, 0u8, 0u8]);
        let pm = Self::polymod(&payload) ^ 1;
        let mut checksum: Vec<u8> = Vec::new();
        let mut p: u32 = 0;
        while p < 6
            invariant
                p <= 6,
                checksum@ =~= Seq::new(p as nat, |q: int| ((pm >> (5 * (5 - q)) as u32) & 0x1fu32) as u8),
            decreases 6 - p,
        {
            checksum.push(((pm >> (5 * (5 - p))) & 0x1f) as u8);
            p = p + 1;
        }
        Checksum(checksum)
    }

    /// Check that a prefix and data values (checksum included) leave residue 1.
    pub fn verify(prefix: &[u8], data: &[u8]) -> (r: Result<(), Error>)
        requires
            2 * prefix@.len() + data@.len() + 1 <= usize::MAX,
        ensures
            r is Ok <==> polymod(expand_prefix(prefix@) + data@) == 1,
            r is Err ==> r == Err::<(), Error>(Error::ChecksumInvalid),
    {
        let mut exp = Self::expand_prefix(prefix);
        let mut i: usize = 0;
        while i < data.len()
            invariant
                i <= data@.len(),
                exp@ == expand_prefix(prefix@) + data@.subrange(0, i as int),
            decreases data@.len() - i,
        {
            exp.push(data[i]);
            i = i + 1;
            assert(exp@ =~= expand_prefix(prefix@) + data@.subrange(0, i as int));
        }
        assert(data@.subrange(0, data@.len() as int) =~= data@);
        if Self::polymod(&exp) == 1 {
            Ok(())
        } else {
            Err(Error::ChecksumInvalid)
        }
    }

    fn expand_prefix(prefix: &[u8]) -> (v: Vec<u8>)
        requires
            2 * prefix@.len() + 1 <= usize::MAX,
        ensures
            v@ == expand_prefix(prefix@),
    {
        let mut v: Vec<u8> = Vec::new();
        let mut i: usize = 0;
        while i < prefix.len()
            invariant
                i <= prefix@.len(),
                v@ =~= prefix@.subrange(0, i as int).map_values(|b: u8| b >> 5u8),
            decreases prefix@.len() - i,
        {
            v.push(prefix[i] >> 5);
            i = i + 1;
        }
        v.push(0);
        let mut j: usize = 0;
        while j < prefix.len()
            invariant
                j <= prefix@.len(),
                v@ =~= prefix@.map_values(|b: u8| b >> 5u8) + seq![0u8] + prefix@.subrange(
                    0,
                    j as int,
                ).map_values(|b: u8| b & 0x1fu8),
            decreases prefix@.len() - j,
        {
            v.push(prefix[j] & 0x1f);
            j = j + 1;
        }
        assert(prefix@.subrange(0, prefix@.len() as int) =~= prefix@);
        v
    }

    fn polymod(values: &[u8]) -> (r: u32)
        ensures
            r == polymod(values@),
    {
        let mut result: u32 = 1;
        let mut i: usize = 0;
        while i < values.len()
            invariant
                i <= values@.len(),
                result == polymod(values@.subrange(0, i as int)),
            decreases values@.len() - i,
        {
            let v = values[i];
            let b: u32 = result >> 25;
            result = ((result & 0x1ff_ffff) << 5) ^ (v as u32);
            if b & 1 != 0 {
                result = result ^ 0x3b6a_57b2;
            }
            if b & 2 != 0 {
                result = result ^ 0x2650_8e6d;
            }
            if b & 4 != 0 {
                result = result ^ 0x1ea1_19fa;
            }
            if b & 8 != 0 {
                result = result ^ 0x3d42_33dd;
            }
            if b & 16 != 0 {
                result = result ^ 0x2a14_62b3;
            }
            assert(values@.subrange(0, i + 1).drop_last() =~= values@.subrange(0, i as int));
            i = i + 1;
        }
        assert(values@.subrange(0, values@.len() as int) =~= values@);
        result
    }
}

/// Six zero steps from a residue: what the checksum is computed from.
pub open spec fn six_zero_steps(r: u32) -> u32 {
    polymod_step(
        polymod_step(
            polymod_step(polymod_step(polymod_step(polymod_step(r, 0), 0), 0), 0),
            0,
        ),
        0,
    )
}

/// The residue after shifting in the six symbols of `pm`, most significant first.
pub open spec fn six_symbol_steps(r: u32, pm: u32) -> u32 {
    polymod_step(
        polymod_step(
            polymod_step(
                polymod_step(
                    polymod_step(polymod_step(r, ((pm >> 25u32) & 0x1fu32) as u8), ((pm >> 20u32) & 0x1fu32) as u8),
                    ((pm >> 15u32) & 0x1fu32) as u8,
                ),
                ((pm >> 10u32) & 0x1fu32) as u8,
            ),
            ((pm >> 5u32) & 0x1fu32) as u8,
        ),
        (pm & 0x1fu32) as u8,
    )
}

/// One step from `t ^ e`, with `e` still below the reduction bits, is one step from `t`
/// plus `e` shifted along, with `c` shifted in.
proof fn lemma_step_shift(t: u32, e: u32, c: u8)
    by (bit_vector)
    requires
        e < 0x200_0000u32,
        c < 32u8,
    ensures
        polymod_step(t ^ e, c) == polymod_step(t, 0) ^ ((e << 5u32) ^ (c as u32)),
        e < 0x20u32 ==> ((e << 5u32) ^ (c as u32)) < 0x400u32,
        e < 0x400u32 ==> ((e << 5u32) ^ (c as u32)) < 0x8000u32,
        e < 0x8000u32 ==> ((e << 5u32) ^ (c as u32)) < 0x10_0000u32,
        e < 0x10_0000u32 ==> ((e << 5u32) ^ (c as u32)) < 0x200_0000u32,
{
}

proof fn lemma_step_bound(r: u32)
    by (bit_vector)
    ensures
        polymod_step(r, 0) < 0x4000_0000u32,
{
}

proof fn lemma_reassemble(pm: u32)
    by (bit_vector)
    requires
        pm < 0x4000_0000u32,
    ensures
        ((((((((((((pm >> 25u32) & 0x1fu32) << 5u32) ^ ((pm >> 20u32) & 0x1fu32)) << 5u32) ^ ((pm
            >> 15u32) & 0x1fu32)) << 5u32) ^ ((pm >> 10u32) & 0x1fu32)) << 5u32) ^ ((pm >> 5u32)
            & 0x1fu32)) << 5u32) ^ (pm & 0x1fu32)) == pm,
{
}

proof fn lemma_xor_zero(t: u32)
    by (bit_vector)
    ensures
        t ^ 0u32 == t,
        t ^ (t ^ 1u32) == 1u32,
{
}

/// Shifting in the six checksum symbols computed from a residue brings it to 1.
proof fn lemma_checksum_closes(r: u32)
    ensures
        six_symbol_steps(r, six_zero_steps(r) ^ 1u32) == 1u32,
{
    let t1 = polymod_step(r, 0);
    let t2 = polymod_step(t1, 0);
    let t3 = polymod_step(t2, 0);
    let t4 = polymod_step(t3, 0);
    let t5 = polymod_step(t4, 0);
    let t6 = polymod_step(t5, 0);
    lemma_step_bound(t5);
    let pm = t6 ^ 1u32;
    assert(pm < 0x4000_0000u32) by (bit_vector)
        requires
            t6 < 0x4000_0000u32,
            pm == t6 ^ 1u32,
    ;
    let c0 = #[verifier::truncate] (((pm >> 25u32) & 0x1fu32) as u8);
    let c1 = #[verifier::truncate] (((pm >> 20u32) & 0x1fu32) as u8);
    let c2 = #[verifier::truncate] (((pm >> 15u32) & 0x1fu32) as u8);
    let c3 = #[verifier::truncate] (((pm >> 10u32) & 0x1fu32) as u8);
    let c4 = #[verifier::truncate] (((pm >> 5u32) & 0x1fu32) as u8);
    let c5 = #[verifier::truncate] ((pm & 0x1fu32) as u8);
    assert(c0 < 32 && c1 < 32 && c2 < 32 && c3 < 32 && c4 < 32 && c5 < 32) by (bit_vector)
        requires
            c0 == ((pm >> 25u32) & 0x1fu32) as u8,
            c1 == ((pm >> 20u32) & 0x1fu32) as u8,
            c2 == ((pm >> 15u32) & 0x1fu32) as u8,
            c3 == ((pm >> 10u32) & 0x1fu32) as u8,
            c4 == ((pm >> 5u32) & 0x1fu32) as u8,
            c5 == (pm & 0x1fu32) as u8,
    ;
    lemma_xor_zero(r);
    lemma_step_shift(r, 0, c0);
    let e1 = (0u32 << 5u32) ^ (c0 as u32);
    assert(e1 == c0 as u32) by (bit_vector)
        requires
            e1 == (0u32 << 5u32) ^ (c0 as u32),
    ;
    lemma_step_shift(t1, e1, c1);
    let e2 = (e1 << 5u32) ^ (c1 as u32);
    lemma_step_shift(t2, e2, c2);
    let e3 = (e2 << 5u32) ^ (c2 as u32);
    lemma_step_shift(t3, e3, c3);
    let e4 = (e3 << 5u32) ^ (c3 as u32);
    lemma_step_shift(t4, e4, c4);
    let e5 = (e4 << 5u32) ^ (c4 as u32);
    lemma_step_shift(t5, e5, c5);
    let e6 = (e5 << 5u32) ^ (c5 as u32);
    assert(c0 as u32 == ((pm >> 25u32) & 0x1fu32) && c1 as u32 == ((pm >> 20u32) & 0x1fu32)
        && c2 as u32 == ((pm >> 15u32) & 0x1fu32) && c3 as u32 == ((pm >> 10u32) & 0x1fu32)
        && c4 as u32 == ((pm >> 5u32) & 0x1fu32) && c5 as u32 == (pm & 0x1fu32)) by (bit_vector)
        requires
            c0 == ((pm >> 25u32) & 0x1fu32) as u8,
            c1 == ((pm >> 20u32) & 0x1fu32) as u8,
            c2 == ((pm >> 15u32) & 0x1fu32) as u8,
            c3 == ((pm >> 10u32) & 0x1fu32) as u8,
            c4 == ((pm >> 5u32) & 0x1fu32) as u8,
            c5 == (pm & 0x1fu32) as u8,
    ;
    lemma_reassemble(pm);
    assert(e6 == pm);
    lemma_xor_zero(t6);
}

// ---------------------------------------------------------------------------
// Conversion between 8-bit bytes and 5-bit groups
/// The big-endian value of a sequence of `w`-bit digits.
pub open spec fn digits_value(s: Seq<u8>, w: nat) -> nat
    decreases s.len(),
{
    if s.len() == 0 {
        0
    } else {
        digits_value(s.drop_last(), w) * pow2(w) + s.last() as nat
    }
}

/// The `m` lowest `w`-bit digits of `x`, most significant first.
pub open spec fn digits_of(x: nat, w: nat, m: nat) -> Seq<u8>
    decreases m,
{
    if m == 0 {
        Seq::empty()
    } else {
        digits_of(x / pow2(w), w, (m - 1) as nat).push((x % pow2(w)) as u8)
    }
}

/// Every element is below `2^w`.
pub open spec fn all_below(s: Seq<u8>, w: nat) -> bool {
    forall|i: int| 0 <= i < s.len() ==> (#[trigger] s[i] as nat) < pow2(w)
}

/// The first element that is at least `2^w`, if any.
pub open spec fn first_wide(s: Seq<u8>, w: nat) -> Option<u8>
    decreases s.len(),
{
    if s.len() == 0 {
        None
    } else {
        match first_wide(s.drop_last(), w) {
            Some(b) => Some(b),
            None => if s.last() as nat >= pow2(w) {
                Some(s.last())
            } else {
                None
            },
        }
    }
}

/// Bytes as 5-bit groups: the bits in order, the last group padded with zero bits.
pub open spec fn to_base32(data: Seq<u8>) -> Seq<u8> {
    let m = (8 * data.len() + 4) / 5;
    digits_of(digits_value(data, 8) * pow2((5 * m - 8 * data.len()) as nat), 5, m)
}

/// 5-bit groups back to bytes: fewer than five leftover bits, all of them zero.
pub open spec fn from_base32(groups: Seq<u8>) -> Result<Seq<u8>, Error> {
    let rem = ((5 * groups.len()) % 8) as nat;
    let v = digits_value(groups, 5);
    if rem >= 5 || v % pow2(rem) != 0 {
        Err(Error::PaddingInvalid)
    } else {
        Ok(digits_of(v / pow2(rem), 8, (5 * groups.len() / 8) as nat))
    }
}

pub proof fn lemma_value_push(s: Seq<u8>, x: u8, w: nat)
    ensures
        digits_value(s.push(x), w) == digits_value(s, w) * pow2(w) + x as nat,
{
    assert(s.push(x).drop_last() =~= s);
}

pub proof fn lemma_value_bound(s: Seq<u8>, w: nat)
    requires
        all_below(s, w),
    ensures
        digits_value(s, w) < pow2(w * s.len()),
    decreases s.len(),
{
    if s.len() == 0 {
        lemma2_to64();
        assert(w * s.len() == 0) by (nonlinear_arith)
            requires
                s.len() == 0,
        ;
    } else {
        let t = s.drop_last();
        assert(all_below(t, w)) by {
            assert forall|i: int| 0 <= i < t.len() implies (#[trigger] t[i] as nat) < pow2(w) by {
                assert(t[i] == s[i]);
            }
        }
        lemma_value_bound(t, w);
        let a = digits_value(t, w);
        let p = pow2(w * t.len());
        let q = pow2(w);
        assert((s.last() as nat) < q) by {
            assert((s[s.len() - 1] as nat) < pow2(w));
        }
        lemma_pow2_adds(w * t.len(), w);
        assert(w * t.len() + w == w * s.len()) by (nonlinear_arith)
            requires
                t.len() + 1 == s.len(),
        ;
        assert(a * q + (s.last() as nat) < p * q) by (nonlinear_arith)
            requires
                a < p,
                (s.last() as nat) < q,
        ;
    }
}

pub proof fn lemma_digits_of_value(s: Seq<u8>, w: nat)
    requires
        all_below(s, w),
    ensures
        digits_of(digits_value(s, w), w, s.len()) == s,
    decreases s.len(),
{
    if s.len() == 0 {
        assert(digits_of(digits_value(s, w), w, 0) =~= s);
    } else {
        let t = s.drop_last();
        assert(all_below(t, w)) by {
            assert forall|i: int| 0 <= i < t.len() implies (#[trigger] t[i] as nat) < pow2(w) by {
                assert(t[i] == s[i]);
            }
        }
        lemma_digits_of_value(t, w);
        let v = digits_value(s, w);
        lemma_pow2_pos(w);
        assert((s[s.len() - 1] as nat) < pow2(w));
        lemma_fundamental_div_mod_converse(
            v as int,
            pow2(w) as int,
            digits_value(t, w) as int,
            s.last() as int,
        );
        assert(digits_of(v, w, s.len()) =~= t.push(s.last()));
        assert(t.push(s.last()) =~= s);
    }
}

pub proof fn lemma_value_of_digits(x: nat, w: nat, m: nat)
    requires
        w <= 8,
    ensures
        digits_of(x, w, m).len() == m,
        all_below(digits_of(x, w, m), w),
        digits_value(digits_of(x, w, m), w) == x % pow2(w * m),
    decreases m,
{
    lemma_pow2_pos(w);
    if m == 0 {
        lemma2_to64();
        assert(w * m == 0) by (nonlinear_arith)
            requires
                m == 0,
        ;
    } else {
        let mm = (m - 1) as nat;
        let d = digits_of(x / pow2(w), w, mm);
        lemma_value_of_digits(x / pow2(w), w, mm);
        let r = (x % pow2(w)) as u8;
        lemma2_to64();
        if w < 8 {
            vstd::arithmetic::power2::lemma_pow2_strictly_increases(w, 8);
        }
        assert(r as nat == x % pow2(w));
        let full = d.push(r);
        assert(all_below(full, w)) by {
            assert forall|i: int| 0 <= i < full.len() implies (#[trigger] full[i] as nat) < pow2(
                w,
            ) by {
                if i < d.len() {
                    assert(full[i] == d[i]);
                }
            }
        }
        lemma_value_push(d, r, w);
        lemma_pow2_pos(w * mm);
        lemma_mod_breakdown(x as int, pow2(w) as int, pow2(w * mm) as int);
        lemma_pow2_adds(w, w * mm);
        assert(w + w * mm == w * m) by (nonlinear_arith)
            requires
                mm + 1 == m,
        ;
        assert(digits_value(full, w) == (x / pow2(w)) % pow2(w * mm) * pow2(w) + x % pow2(w));
        assert(pow2(w) * ((x / pow2(w)) % pow2(w * mm)) == (x / pow2(w)) % pow2(w * mm) * pow2(
            w,
        )) by (nonlinear_arith);
    }
}

/// Direction of a conversion between 8-bit bytes and 5-bit groups.
#[derive(Clone, Copy, Debug, PartialEq, Eq, Structural)]
pub enum Base32Converter {
    /// Bytes to 5-bit groups.
    Encode,
    /// 5-bit groups to bytes.
    Decode,
}

impl Base32Converter {
    /// What the conversion returns.
    pub open spec fn converted(self, data: Seq<u8>) -> Result<Seq<u8>, Error> {
        match self {
            Base32Converter::Encode => Ok(to_base32(data)),
            Base32Converter::Decode => match first_wide(data, 5) {
                Some(b) => Err(Error::DataInvalid { byte: b }),
                None => from_base32(data),
            },
        }
    }

    /// Convert `data` between 8-bit bytes and 5-bit groups.
    pub fn convert(&self, data: &[u8]) -> (r: Result<Vec<u8>, Error>)
        requires
            data@.len() < 0x1000_0000,
        ensures
            match (r, self.converted(data@)) {
                (Ok(v), Ok(s)) => v@ == s,
                (Err(e), Err(f)) => e == f,
                _ => false,
            },
    {
        let ghost sw: nat = if *self == Base32Converter::Encode { 8 } else { 5 };
        let ghost dw: nat = if *self == Base32Converter::Encode { 5 } else { 8 };
        let (src, dst, src_scale, dst_scale): (u32, u32, u32, u32) = match self {
            Base32Converter::Encode => (8, 5, 256, 32),
            Base32Converter::Decode => (5, 8, 32, 256),
        };
        proof {
            lemma2_to64();
        }
        let mut acc: u32 = 0;
        let mut bits: u32 = 0;
        let mut scale: u32 = 1;
        let mut result: Vec<u8> = Vec::new();
        let mut i: usize = 0;
        while i < data.len()
            invariant
                i <= data@.len() < 0x1000_0000,
                sw == src as nat,
                dw == dst as nat,
                src_scale as nat == pow2(sw),
                dst_scale as nat == pow2(dw),
                (src == 8 && dst == 5 && src_scale == 256 && dst_scale == 32 && *self
                    == Base32Converter::Encode) || (src == 5 && dst == 8 && src_scale == 32
                    && dst_scale == 256 && *self == Base32Converter::Decode),
                bits < dst,
                scale as nat == pow2(bits as nat),
                0 < scale < dst_scale,
                dst_scale > 0,
                acc < scale,
                result@.len() * dw + bits == i * sw,
                all_below(result@, dw),
                digits_value(data@.subrange(0, i as int), sw) == digits_value(result@, dw) * (
                scale as nat) + acc,
                first_wide(data@.subrange(0, i as int), sw) is None,
            decreases data@.len() - i,
        {
            let v: u32 = data[i] as u32;
            let ghost prev = data@.subrange(0, i as int);
            let ghost next = data@.subrange(0, i + 1);
            assert(next.drop_last() =~= prev);
            if v >= src_scale {
                assert(v as u8 == data@[i as int]);
                assert(first_wide(data@, sw) == Some(data@[i as int])) by {
                    lemma_first_wide_extends(data@, sw, (i + 1) as nat);
                }
                return Err(Error::DataInvalid { byte: v as u8 });
            }
            proof {
                lemma_value_push(prev, data@[i as int], sw);
                assert(next =~= prev.push(data@[i as int]));
                lemma_pow2_adds(bits as nat, sw);
                assert(acc * src_scale + v < scale * src_scale) by (nonlinear_arith)
                    requires
                        acc < scale,
                        v < src_scale,
                ;
                assert(scale * src_scale < dst_scale * src_scale <= 0x1_0000) by (nonlinear_arith)
                    requires
                        scale < dst_scale,
                        dst_scale <= 256,
                        0 < src_scale <= 256,
                ;
                assert(digits_value(next, sw) == digits_value(result@, dw) * (scale as nat * src_scale as nat) + (acc * src_scale + v)) by (nonlinear_arith)
                    requires
                        digits_value(prev, sw) == digits_value(result@, dw) * (scale as nat) + acc,
                        digits_value(next, sw) == digits_value(prev, sw) * (src_scale as nat) + v,
                ;
            }
            assert((i + 1) * sw == i * sw + sw) by (nonlinear_arith);
            acc = acc * src_scale + v;
            bits = bits + src;
            scale = scale * src_scale;
            while bits >= dst
                invariant
                    i < data@.len() < 0x1000_0000,
                    sw == src as nat,
                    dw == dst as nat,
                    src_scale as nat == pow2(sw),
                    dst_scale as nat == pow2(dw),
                    (src == 8 && dst == 5 && src_scale == 256 && dst_scale == 32) || (src == 5 && dst
                        == 8 && src_scale == 32 && dst_scale == 256),
                    bits < dst + src,
                    scale as nat == pow2(bits as nat),
                    0 < scale < dst_scale * src_scale,
                    dst_scale > 0,
                    acc < scale,
                    result@.len() * dw + bits == (i + 1) * sw,
                    all_below(result@, dw),
                    digits_value(next, sw) == digits_value(result@, dw) * (scale as nat) + acc,
                decreases bits,
            {
                let ghost old_bits = bits;
                bits = bits - dst;
                let ghost old_result = result@;
                let ghost old_scale = scale;
                let ghost old_acc = acc;
                proof {
                    lemma_pow2_adds(bits as nat, dw);
                    lemma_pow2_pos(bits as nat);
                    assert(old_bits as nat == bits as nat + dw);
                    assert(old_scale as nat == pow2(bits as nat) * (dst_scale as nat));
                }
                let new_scale: u32 = scale / dst_scale;
                proof {
                    assert(new_scale as nat == pow2(bits as nat)) by (nonlinear_arith)
                        requires
                            old_scale as nat == pow2(bits as nat) * (dst_scale as nat),
                            dst_scale > 0,
                            new_scale == old_scale / dst_scale,
                    ;
                }
                let digit: u32 = acc / new_scale;
                acc = acc % new_scale;
                proof {
                    lemma_fundamental_div_mod(old_acc as int, new_scale as int);
                    assert(digit < dst_scale) by (nonlinear_arith)
                        requires
                            old_acc < old_scale,
                            old_scale == new_scale * dst_scale,
                            digit == old_acc / new_scale,
                            new_scale > 0,
                    ;
                }
                assert(digit as u8 as u32 == digit);
                result.push(digit as u8);
                scale = new_scale;
                proof {
                    assert(result@.len() * dw == old_result.len() * dw + dw) by (nonlinear_arith)
                        requires
                            result@.len() == old_result.len() + 1,
                    ;
                    lemma_value_push(old_result, digit as u8, dw);
                    assert(digits_value(next, sw) == digits_value(result@, dw) * (scale as nat) + acc) by (nonlinear_arith)
                        requires
                            digits_value(next, sw) == digits_value(old_result, dw) * (old_scale as nat) + old_acc,
                            old_scale == new_scale * dst_scale,
                            old_acc == new_scale * digit + acc,
                            scale == new_scale,
                            digits_value(result@, dw) == digits_value(old_result, dw) * (dst_scale as nat) + digit,
                    ;
                    assert(all_below(result@, dw)) by {
                        assert forall|k: int| 0 <= k < result@.len() implies (
                        #[trigger] result@[k] as nat) < pow2(dw) by {
                            if k < old_result.len() {
                                assert(result@[k] == old_result[k]);
                            }
                        }
                    }
                }
            }
            proof {
                vstd::arithmetic::power2::lemma_pow2_strictly_increases(bits as nat, dw);
            }
            i = i + 1;
            proof {
                assert(first_wide(next, sw) is None) by {
                    assert(next.last() == data@[i - 1]);
                }
            }
        }
        assert(data@.subrange(0, data@.len() as int) =~= data@);
        proof {
            lemma2_to64();
        }
        let ghost n = data@.len();
        let ghost v_in = digits_value(data@, sw);
        match self {
            Base32Converter::Encode => {
                if bits > 0 {
                    let pad_scale: u32 = dst_scale / scale;
                    let ghost old_result = result@;
                    proof {
                        lemma_pow2_subtracts(bits as nat, dw);
                        lemma_pow2_adds(bits as nat, (dw - bits) as nat);
                        assert(acc * pad_scale < dst_scale) by (nonlinear_arith)
                            requires
                                acc < scale,
                                pad_scale > 0,
                                dst_scale == scale * pad_scale,
                        ;
                    }
                    result.push((acc * pad_scale) as u8);
                    proof {
                        lemma_value_push(old_result, (acc * pad_scale) as u8, dw);
                        assert(digits_value(result@, dw) == v_in * pad_scale) by (nonlinear_arith)
                            requires
                                v_in == digits_value(old_result, dw) * (scale as nat) + acc,
                                dst_scale == scale * pad_scale,
                                digits_value(result@, dw) == digits_value(old_result, dw) * (dst_scale as nat) + acc * pad_scale,
                        ;
                        assert(all_below(result@, dw)) by {
                            assert forall|k: int| 0 <= k < result@.len() implies (
                            #[trigger] result@[k] as nat) < pow2(dw) by {
                                if k < old_result.len() {
                                    assert(result@[k] == old_result[k]);
                                }
                            }
                        }
                        assert(result@.len() == (8 * n + 4) / 5);
                        assert(pad_scale as nat == pow2((5 * result@.len() - 8 * n) as nat));
                    }
                } else {
                    proof {
                        assert(scale == 1);
                        assert(acc == 0);
                        assert(v_in == digits_value(result@, dw) * 1 + 0);
                        assert(result@.len() == (8 * n + 4) / 5);
                        assert((5 * result@.len() - 8 * n) as nat == 0);
                        assert(digits_value(result@, dw) == v_in * pow2(0));
                    }
                }
                proof {
                    lemma_digits_of_value(result@, dw);
                }
                Ok(result)
            },
            Base32Converter::Decode => {
                proof {
                    assert((5 * n) % 8 == bits as nat);
                    assert(5 * n / 8 == result@.len());
                    lemma_fundamental_div_mod_converse(
                        v_in as int,
                        scale as int,
                        digits_value(result@, dw) as int,
                        acc as int,
                    );
                    lemma_digits_of_value(result@, dw);
                }
                if bits >= src || acc != 0 {
                    Err(Error::PaddingInvalid)
                } else {
                    Ok(result)
                }
            },
        }
    }
}

proof fn lemma_first_wide_extends(s: Seq<u8>, w: nat, k: nat)
    requires
        0 < k <= s.len(),
        first_wide(s.subrange(0, k - 1), w) is None,
        s[k - 1] as nat >= pow2(w),
    ensures
        first_wide(s, w) == Some(s[k - 1]),
    decreases s.len() - k,
{
    assert(s.subrange(0, k as int).drop_last() =~= s.subrange(0, k - 1));
    if k == s.len() {
        assert(s.subrange(0, k as int) =~= s);
    } else {
        lemma_first_wide_prefix(s, w, k);
    }
}

proof fn lemma_first_wide_prefix(s: Seq<u8>, w: nat, k: nat)
    requires
        0 < k <= s.len(),
        first_wide(s.subrange(0, k as int), w) is Some,
    ensures
        first_wide(s, w) == first_wide(s.subrange(0, k as int), w),
    decreases s.len() - k,
{
    if k == s.len() {
        assert(s.subrange(0, k as int) =~= s);
    } else {
        assert(s.subrange(0, (k + 1) as int).drop_last() =~= s.subrange(0, k as int));
        lemma_first_wide_prefix(s, w, k + 1);
    }
}

// ---------------------------------------------------------------------------
// Encoding and decoding
/// The character that stands for a 5-bit value.
pub open spec fn symbol_char(v: u8) -> char {
    charset_symbol(v) as char
}

/// What `encode` returns: prefix, `;`, then the data groups and the checksum as symbols.
pub open spec fn encoded(prefix: Seq<char>, data: Seq<u8>) -> Seq<char> {
    let groups = to_base32(data);
    prefix + seq![';'] + (groups + checksum_of(encode_utf8(prefix), groups)).map_values(
        |v: u8| symbol_char(v),
    )
}

/// `k` is the position of the first `;`.
pub open spec fn separator_at(s: Seq<u8>, k: int) -> bool {
    0 <= k < s.len() && s[k] == 0x3b && forall|j: int| 0 <= j < k ==> s[j] != 0x3b
}

/// `i` is the position of the first byte outside the prefix alphabet.
pub open spec fn bad_prefix_at(p: Seq<u8>, i: int) -> bool {
    0 <= i < p.len() && !is_prefix_char(p[i]) && forall|j: int| 0 <= j < i ==> is_prefix_char(p[j])
}

/// `i` is the position of the first byte outside the data alphabet.
pub open spec fn bad_data_at(d: Seq<u8>, i: int) -> bool {
    0 <= i < d.len() && !is_data_char(d[i]) && forall|j: int| 0 <= j < i ==> is_data_char(d[j])
}

/// Some byte is an upper-case letter.
pub open spec fn has_upper(s: Seq<u8>) -> bool {
    exists|i: int| 0 <= i < s.len() && is_upper_ascii(#[trigger] s[i])
}

/// Some byte is a lower-case letter.
pub open spec fn has_lower(s: Seq<u8>) -> bool {
    exists|i: int| 0 <= i < s.len() && is_lower_ascii(#[trigger] s[i])
}

/// The data symbols as 5-bit values, read case-insensitively.
pub open spec fn data_values(d: Seq<u8>) -> Seq<u8> {
    d.map_values(|b: u8| charset_value(to_lower(b)))
}

/// What `decode` returns for the bytes of a string: the lower-cased prefix bytes and the data.
pub open spec fn decoded(s: Seq<u8>) -> Result<(Seq<u8>, Seq<u8>), Error> {
    if !(exists|k: int| separator_at(s, k)) {
        Err(Error::SeparatorMissing)
    } else if s.len() < MIN_LENGTH || s.len() > MAX_LENGTH {
        Err(Error::LengthInvalid)
    } else {
        let k = choose|k: int| separator_at(s, k);
        let prefix = s.subrange(0, k);
        let data = s.subrange(k + 1, s.len() as int);
        if k == 0 || data.len() < 6 {
            Err(Error::LengthInvalid)
        } else if exists|i: int| bad_prefix_at(prefix, i) {
            Err(Error::CharInvalid { byte: prefix[choose|i: int| bad_prefix_at(prefix, i)] })
        } else if exists|i: int| bad_data_at(data, i) {
            Err(Error::CharInvalid { byte: data[choose|i: int| bad_data_at(data, i)] })
        } else if (has_upper(prefix) || has_upper(data)) && (has_lower(prefix) || has_lower(data)) {
            Err(Error::CaseInvalid)
        } else {
            let lowered = prefix.map_values(|b: u8| to_lower(b));
            let values = data_values(data);
            if polymod(expand_prefix(lowered) + values) != 1 {
                Err(Error::ChecksumInvalid)
            } else {
                match from_base32(values.subrange(0, values.len() - 6)) {
                    Ok(bytes) => Ok((lowered, bytes)),
                    Err(e) => Err(e),
                }
            }
        }
    }
}

proof fn lemma_no_wide(s: Seq<u8>, w: nat)
    requires
        all_below(s, w),
    ensures
        first_wide(s, w) is None,
    decreases s.len(),
{
    if s.len() > 0 {
        let t = s.drop_last();
        assert(all_below(t, w)) by {
            assert forall|i: int| 0 <= i < t.len() implies (#[trigger] t[i] as nat) < pow2(w) by {
                assert(t[i] == s[i]);
            }
        }
        lemma_no_wide(t, w);
        assert((s[s.len() - 1] as nat) < pow2(w));
    }
}

/// The length of an encoding: prefix, separator, data symbols and six checksum symbols.
pub proof fn lemma_encoded_len(prefix: Seq<char>, data: Seq<u8>)
    ensures
        encoded(prefix, data).len() == prefix.len() + 1 + (8 * data.len() + 4) / 5 + 6,
{
    let n = data.len();
    let m = (8 * n + 4) / 5;
    lemma_value_of_digits(digits_value(data, 8) * pow2((5 * m - 8 * n) as nat), 5, m);
}

/// A character takes at most four bytes in UTF-8.
pub proof fn lemma_utf8_len(c: Seq<char>)
    ensures
        encode_utf8(c).len() <= 4 * c.len(),
    decreases c.len(),
{
    if c.len() > 0 {
        lemma_utf8_len(c.drop_first());
    }
}

/// Encode a prefix and binary data as a bech32k string.
pub fn encode(prefix: &str, data: &[u8]) -> (r: String)
    requires
        prefix@.len() < 0x100_0000,
        data@.len() < 0x1000_0000,
    ensures
        r@ == encoded(prefix@, data@),
{
    proof {
        lemma_utf8_len(prefix@);
    }
    let groups = match Base32Converter::Encode.convert(data) {
        Ok(g) => g,
        Err(_) => {
            assert(false);
            Vec::new()
        },
    };
    proof {
        let n = data@.len();
        let m = (8 * n + 4) / 5;
        lemma_value_of_digits(digits_value(data@, 8) * pow2((5 * m - 8 * n) as nat), 5, m);
    }
    let checksum = Checksum::new(prefix.as_bytes(), groups.as_slice());
    let ghost symbols = groups@ + checksum.0@;
    let mut out = prefix.to_owned();
    push_char(&mut out, SEPARATOR);
    let mut i: usize = 0;
    while i < groups.len()
        invariant
            i <= groups@.len(),
            out@ =~= prefix@ + seq![';'] + groups@.subrange(0, i as int).map_values(
                |v: u8| symbol_char(v),
            ),
        decreases groups@.len() - i,
    {
        push_char(&mut out, symbol_of(groups[i]) as char);
        i = i + 1;
    }
    let mut j: usize = 0;
    while j < checksum.0.len()
        invariant
            i == groups@.len(),
            j <= checksum.0@.len(),
            out@ =~= prefix@ + seq![';'] + (groups@ + checksum.0@.subrange(0, j as int)).map_values(
                |v: u8| symbol_char(v),
            ),
        decreases checksum.0@.len() - j,
    {
        push_char(&mut out, symbol_of(checksum.0[j]) as char);
        j = j + 1;
        assert((groups@ + checksum.0@.subrange(0, j as int)).map_values(|v: u8| symbol_char(v))
            =~= (groups@ + checksum.0@.subrange(0, j - 1)).map_values(|v: u8| symbol_char(v)).push(
            symbol_char(checksum.0@[j - 1]),
        ));
    }
    assert(checksum.0@.subrange(0, checksum.0@.len() as int) =~= checksum.0@);
    out
}

/// Decode a bech32k string into its (lower-cased) prefix and binary data.
pub fn decode(encoded: &str) -> (r: Result<(String, Vec<u8>), Error>)
    ensures
        match (r, decoded(encoded.spec_bytes())) {
            (Ok((p, d)), Ok((sp, sd))) => p@ == ascii_chars(sp) && d@ == sd,
            (Err(e), Err(f)) => e == f,
            _ => false,
        },
{
    let bytes = encoded.as_bytes();
    let ghost s = bytes@;
    let len = bytes.len();
    let mut k: usize = 0;
    while k < len && bytes[k] != 0x3b
        invariant
            k <= len == s.len(),
            bytes@ == s,
            s == encoded.spec_bytes(),
            forall|j: int| 0 <= j < k ==> s[j] != 0x3b,
        decreases len - k,
    {
        k = k + 1;
    }
    if k == len {
        assert(!exists|q: int| separator_at(s, q));
        return Err(Error::SeparatorMissing);
    }
    assert(separator_at(s, k as int));
    if len < MIN_LENGTH || len > MAX_LENGTH {
        return Err(Error::LengthInvalid);
    }
    assert forall|q: int| separator_at(s, q) implies q == k by {
        if q < k {
            assert(s[q] != 0x3b);
        } else if q > k {
            assert(s[k as int] != 0x3b);
        }
    }
    let ghost prefix = s.subrange(0, k as int);
    let ghost data = s.subrange(k + 1, len as int);
    if k == 0 || len - k - 1 < 6 {
        return Err(Error::LengthInvalid);
    }
    let mut has_lower_seen = false;
    let mut has_upper_seen = false;
    let mut prefix_bytes: Vec<u8> = Vec::new();
    let mut i: usize = 0;
    while i < k
        invariant
            k < len == s.len() <= MAX_LENGTH,
            bytes@ == s,
            s == encoded.spec_bytes(),
            separator_at(s, k as int),
            forall|q: int| separator_at(s, q) ==> q == k,
            MIN_LENGTH <= len,
            0 < k,
            len - k - 1 >= 6,
            prefix == s.subrange(0, k as int),
            data == s.subrange(k + 1, len as int),
            i <= k,
            forall|j: int| 0 <= j < i ==> is_prefix_char(#[trigger] prefix[j]),
            prefix_bytes@ =~= prefix.subrange(0, i as int).map_values(|b: u8| to_lower(b)),
            has_upper_seen == has_upper(prefix.subrange(0, i as int)),
            has_lower_seen == has_lower(prefix.subrange(0, i as int)),
        decreases k - i,
    {
        let byte = bytes[i];
        assert(byte == prefix[i as int]);
        if !(33 <= byte && byte <= 126) {
            assert(bad_prefix_at(prefix, i as int));
            assert forall|q: int| bad_prefix_at(prefix, q) implies q == i by {
                if q < i {
                } else if q > i {
                    assert(is_prefix_char(prefix[i as int]));
                }
            }
            let ghost kk = choose|q: int| separator_at(s, q);
            assert(kk == k);
            let ghost ii = choose|q: int| bad_prefix_at(prefix, q);
            assert(ii == i);
            return Err(Error::CharInvalid { byte });
        }
        let mut folded = byte;
        if 0x41 <= byte && byte <= 0x5a {
            has_upper_seen = true;
            folded = byte + 0x20;
        } else if 0x61 <= byte && byte <= 0x7a {
            has_lower_seen = true;
        }
        prefix_bytes.push(folded);
        proof {
            let before = prefix.subrange(0, i as int);
            let after = prefix.subrange(0, i + 1);
            assert(after =~= before.push(byte));
            assert(has_upper(after) == (has_upper(before) || is_upper_ascii(byte))) by {
                if is_upper_ascii(byte) {
                    assert(after[i as int] == byte);
                }
                if has_upper(after) && !is_upper_ascii(byte) {
                    let w = choose|w: int| 0 <= w < after.len() && is_upper_ascii(#[trigger] after[w]);
                    assert(before[w] == after[w]);
                }
                if has_upper(before) {
                    let w = choose|w: int| 0 <= w < before.len() && is_upper_ascii(#[trigger] before[w]);
                    assert(before[w] == after[w]);
                }
            }
            assert(has_lower(after) == (has_lower(before) || is_lower_ascii(byte))) by {
                if is_lower_ascii(byte) {
                    assert(after[i as int] == byte);
                }
                if has_lower(after) && !is_lower_ascii(byte) {
                    let w = choose|w: int| 0 <= w < after.len() && is_lower_ascii(#[trigger] after[w]);
                    assert(before[w] == after[w]);
                }
                if has_lower(before) {
                    let w = choose|w: int| 0 <= w < before.len() && is_lower_ascii(#[trigger] before[w]);
                    assert(before[w] == after[w]);
                }
            }
        }
        i = i + 1;
    }
    assert(prefix.subrange(0, k as int) =~= prefix);
    assert(!exists|q: int| bad_prefix_at(prefix, q));
    let ghost prefix_upper = has_upper_seen;
    let ghost prefix_lower = has_lower_seen;
    let mut data_bytes: Vec<u8> = Vec::new();
    let mut j: usize = k + 1;
    while j < len
        invariant
            k < len == s.len() <= MAX_LENGTH,
            bytes@ == s,
            s == encoded.spec_bytes(),
            separator_at(s, k as int),
            forall|q: int| separator_at(s, q) ==> q == k,
            MIN_LENGTH <= len,
            0 < k,
            len - k - 1 >= 6,
            prefix == s.subrange(0, k as int),
            data == s.subrange(k + 1, len as int),
            !exists|q: int| bad_prefix_at(prefix, q),
            prefix_bytes@ =~= prefix.map_values(|b: u8| to_lower(b)),
            prefix_upper == has_upper(prefix),
            prefix_lower == has_lower(prefix),
            k + 1 <= j <= len,
            forall|q: int| 0 <= q < j - k - 1 ==> is_data_char(#[trigger] data[q]),
            data_bytes@ =~= data_values(data.subrange(0, j - k - 1)),
            has_upper_seen == (prefix_upper || has_upper(data.subrange(0, j - k - 1))),
            has_lower_seen == (prefix_lower || has_lower(data.subrange(0, j - k - 1))),
        decreases len - j,
    {
        let byte = bytes[j];
        let ghost at = j - k - 1;
        assert(byte == data[at]);
        let is_digit = 0x30 <= byte && byte <= 0x39;
        let is_up = 0x41 <= byte && byte <= 0x5a;
        let is_low = 0x61 <= byte && byte <= 0x7a;
        if !((is_digit || is_up || is_low) && byte != 0x31 && byte != 0x42 && byte != 0x49
            && byte != 0x4f && byte != 0x62 && byte != 0x69 && byte != 0x6f) {
            assert(bad_data_at(data, at));
            assert forall|q: int| bad_data_at(data, q) implies q == at by {
                if q < at {
                } else if q > at {
                    assert(is_data_char(data[at]));
                }
            }
            let ghost kk = choose|q: int| separator_at(s, q);
            assert(kk == k);
            let ghost ii = choose|q: int| bad_data_at(data, q);
            assert(ii == at);
            return Err(Error::CharInvalid { byte });
        }
        let mut folded = byte;
        if is_up {
            has_upper_seen = true;
            folded = byte + 0x20;
        } else if is_low {
            has_lower_seen = true;
        }
        data_bytes.push(value_of(folded));
        proof {
            let before = data.subrange(0, at);
            let after = data.subrange(0, at + 1);
            assert(after =~= before.push(byte));
            assert(data_values(after) =~= data_values(before).push(charset_value(to_lower(byte))));
            assert(has_upper(after) == (has_upper(before) || is_upper_ascii(byte))) by {
                if is_upper_ascii(byte) {
                    assert(after[at] == byte);
                }
                if has_upper(after) && !is_upper_ascii(byte) {
                    let w = choose|w: int| 0 <= w < after.len() && is_upper_ascii(#[trigger] after[w]);
                    assert(before[w] == after[w]);
                }
                if has_upper(before) {
                    let w = choose|w: int| 0 <= w < before.len() && is_upper_ascii(#[trigger] before[w]);
                    assert(before[w] == after[w]);
                }
            }
            assert(has_lower(after) == (has_lower(before) || is_lower_ascii(byte))) by {
                if is_lower_ascii(byte) {
                    assert(after[at] == byte);
                }
                if has_lower(after) && !is_lower_ascii(byte) {
                    let w = choose|w: int| 0 <= w < after.len() && is_lower_ascii(#[trigger] after[w]);
                    assert(before[w] == after[w]);
                }
                if has_lower(before) {
                    let w = choose|w: int| 0 <= w < before.len() && is_lower_ascii(#[trigger] before[w]);
                    assert(before[w] == after[w]);
                }
            }
        }
        j = j + 1;
    }
    assert(data.subrange(0, data.len() as int) =~= data);
    assert(!exists|q: int| bad_data_at(data, q));
    if has_lower_seen && has_upper_seen {
        return Err(Error::CaseInvalid);
    }
    let checked = Checksum::verify(prefix_bytes.as_slice(), data_bytes.as_slice());
    if checked.is_err() {
        return Err(Error::ChecksumInvalid);
    }
    let ghost values = data_bytes@;
    let keep = data_bytes.len() - 6;
    data_bytes.truncate(keep);
    proof {
        assert(data_bytes@ =~= values.subrange(0, values.len() - 6));
        assert(all_below(data_bytes@, 5)) by {
            lemma2_to64();
            assert forall|q: int| 0 <= q < data_bytes@.len() implies (
            #[trigger] data_bytes@[q] as nat) < pow2(5) by {
                assert(data_bytes@[q] == values[q]);
                assert(values[q] == charset_value(to_lower(data[q])));
                lemma_data_char_value(data[q]);
            }
        }
        lemma_no_wide(data_bytes@, 5);
    }
    match Base32Converter::Decode.convert(data_bytes.as_slice()) {
        Ok(out) => Ok((string_from_ascii(prefix_bytes.as_slice()), out)),
        Err(e) => Err(e),
    }
}

/// Converting bytes to 5-bit groups and back gives the bytes again.
pub proof fn lemma_base32_round_trip(data: Seq<u8>)
    ensures
        from_base32(to_base32(data)) == Ok::<Seq<u8>, Error>(data),
        to_base32(data).len() == (8 * data.len() + 4) / 5,
        all_below(to_base32(data), 5),
{
    let n = data.len();
    let m = (8 * n + 4) / 5;
    let pad = (5 * m - 8 * n) as nat;
    assert(0 <= 5 * m - 8 * n <= 4);
    lemma2_to64();
    assert(all_below(data, 8)) by {
        assert forall|i: int| 0 <= i < data.len() implies (#[trigger] data[i] as nat) < pow2(8) by {}
    }
    let v = digits_value(data, 8);
    lemma_value_bound(data, 8);
    let x = v * pow2(pad);
    lemma_value_of_digits(x, 5, m);
    let g = to_base32(data);
    lemma_pow2_adds(8 * n, pad);
    assert(8 * n + pad == 5 * m);
    lemma_pow2_pos(pad);
    assert(x < pow2(5 * m)) by (nonlinear_arith)
        requires
            v < pow2(8 * n),
            x == v * pow2(pad),
            pow2(5 * m) == pow2(8 * n) * pow2(pad),
            pow2(pad) > 0,
    ;
    vstd::arithmetic::div_mod::lemma_small_mod(x, pow2(5 * m));
    assert(digits_value(g, 5) == x);
    assert((5 * g.len()) % 8 == pad);
    assert(5 * g.len() / 8 == n);
    lemma_fundamental_div_mod_converse(x as int, pow2(pad) as int, v as int, 0);
    lemma_digits_of_value(data, 8);
}

proof fn lemma_polymod_push(a: Seq<u8>, v: u8)
    ensures
        polymod(a.push(v)) == polymod_step(polymod(a), v),
{
    assert(a.push(v).drop_last() =~= a);
}

proof fn lemma_polymod_six(x: Seq<u8>, c: Seq<u8>)
    requires
        c.len() == 6,
    ensures
        polymod(x + c) == polymod_step(
            polymod_step(
                polymod_step(
                    polymod_step(polymod_step(polymod_step(polymod(x), c[0]), c[1]), c[2]),
                    c[3],
                ),
                c[4],
            ),
            c[5],
        ),
{
    let x1 = x.push(c[0]);
    let x2 = x1.push(c[1]);
    let x3 = x2.push(c[2]);
    let x4 = x3.push(c[3]);
    let x5 = x4.push(c[4]);
    let x6 = x5.push(c[5]);
    assert(x + c =~= x6);
    lemma_polymod_push(x, c[0]);
    lemma_polymod_push(x1, c[1]);
    lemma_polymod_push(x2, c[2]);
    lemma_polymod_push(x3, c[3]);
    lemma_polymod_push(x4, c[4]);
    lemma_polymod_push(x5, c[5]);
}

/// The checksum symbols make the residue of the prefix, data and checksum equal to 1.
pub proof fn lemma_checksum_valid(prefix: Seq<u8>, data: Seq<u8>)
    ensures
        polymod(expand_prefix(prefix) + (data + checksum_of(prefix, data))) == 1,
        checksum_of(prefix, data).len() == 6,
        forall|i: int| 0 <= i < 6 ==> #[trigger] checksum_of(prefix, data)[i] < 32,
{
    let x = expand_prefix(prefix) + data;
    let zeros = seq![0u8, 0u8, 0u8, 0u8, 0u8, 0u8];
    lemma_polymod_six(x, zeros);
    let r = polymod(x);
    let pm = six_zero_steps(r) ^ 1u32;
    let cs = checksum_of(prefix, data);
    assert(expand_prefix(prefix) + data + zeros == x + zeros);
    assert((pm >> 0u32) == pm) by (bit_vector);
    assert forall|i: int| 0 <= i < 6 implies #[trigger] cs[i] < 32 by {
        let sh = (5 * (5 - i)) as u32;
        let w = (pm >> sh) & 0x1fu32;
        assert(w < 32) by (bit_vector)
            requires
                w == (pm >> sh) & 0x1fu32,
        ;
    }
    lemma_polymod_six(x, cs);
    assert(expand_prefix(prefix) + (data + cs) =~= x + cs);
    lemma_checksum_closes(r);
}

/// A prefix that decoding gives back unchanged: printable ASCII, without `;` and without
/// upper-case letters.
pub open spec fn valid_prefix(p: Seq<char>) -> bool {
    p.len() > 0 && forall|i: int|
        0 <= i < p.len() ==> '!' <= #[trigger] p[i] <= '~' && p[i] != ';' && !('A' <= p[i] <= 'Z')
}

/// Decoding an encoding gives back the prefix and the data.
pub proof fn lemma_round_trip(prefix: Seq<char>, data: Seq<u8>)
    requires
        valid_prefix(prefix),
        MIN_LENGTH <= encoded(prefix, data).len() <= MAX_LENGTH,
    ensures
        decoded(encode_utf8(encoded(prefix, data))) == Ok::<(Seq<u8>, Seq<u8>), Error>((encode_utf8(prefix), data)),
        ascii_chars(encode_utf8(prefix)) == prefix,
{
    lemma2_to64();
    lemma_base32_round_trip(data);
    let g = to_base32(data);
    assert(is_ascii_chars(prefix));
    is_ascii_chars_encode_utf8(prefix);
    let pb = encode_utf8(prefix);
    let cs = checksum_of(pb, g);
    lemma_checksum_valid(pb, g);
    let vals = g + cs;
    assert forall|j: int| 0 <= j < vals.len() implies #[trigger] vals[j] < 32 by {
        if j < g.len() {
            assert((g[j] as nat) < pow2(5));
        } else {
            assert(vals[j] == cs[j - g.len()]);
        }
    }
    let syms = vals.map_values(|v: u8| symbol_char(v));
    let s = encoded(prefix, data);
    let k = prefix.len() as int;
    assert(s =~= prefix + seq![';'] + syms);
    assert forall|i: int| 0 <= i < s.len() implies '\0' <= #[trigger] s[i] <= '\u{7f}' by {
        if i < k {
            assert(s[i] == prefix[i]);
        } else if i > k {
            assert(s[i] == syms[i - k - 1]);
            lemma_symbol_value(vals[i - k - 1]);
        }
    }
    is_ascii_chars_encode_utf8(s);
    let b = encode_utf8(s);
    assert(b.len() == s.len());
    assert forall|i: int| 0 <= i < k implies #[trigger] b[i] == pb[i] by {
        assert(b[i] == s[i] as u8);
        assert(s[i] == prefix[i]);
    }
    assert(b[k] == 0x3b);
    assert(separator_at(b, k)) by {
        assert forall|j: int| 0 <= j < k implies b[j] != 0x3b by {
            assert(b[j] == prefix[j] as u8);
            assert(prefix[j] != ';');
        }
    }
    assert forall|q: int| separator_at(b, q) implies q == k by {
        if q < k {
            assert(b[q] == prefix[q] as u8);
            assert(prefix[q] != ';');
        } else if q > k {
            assert(b[k] != 0x3b);
        }
    }
    let pre = b.subrange(0, k);
    let dat = b.subrange(k + 1, b.len() as int);
    assert(pre =~= pb);
    assert(dat.len() == vals.len());
    assert forall|j: int| 0 <= j < dat.len() implies #[trigger] dat[j] == charset_symbol(vals[j]) by {
        assert(dat[j] == b[k + 1 + j]);
        assert(b[k + 1 + j] == s[k + 1 + j] as u8);
        assert(s[k + 1 + j] == syms[j]);
        lemma_symbol_value(vals[j]);
    }
    assert forall|i: int| 0 <= i < pre.len() implies is_prefix_char(#[trigger] pre[i]) && !is_upper_ascii(pre[i]) by {
        assert(pre[i] == prefix[i] as u8);
    }
    assert(!exists|i: int| bad_prefix_at(pre, i));
    assert forall|j: int| 0 <= j < dat.len() implies is_data_char(#[trigger] dat[j]) && !is_upper_ascii(dat[j]) by {
        lemma_symbol_value(vals[j]);
    }
    assert(!exists|i: int| bad_data_at(dat, i));
    assert(!has_upper(pre));
    assert(!has_upper(dat));
    assert(pre.map_values(|x: u8| to_lower(x)) =~= pb);
    assert(data_values(dat) =~= vals) by {
        assert forall|j: int| 0 <= j < vals.len() implies #[trigger] data_values(dat)[j] == vals[j] by {
            lemma_symbol_value(vals[j]);
        }
    }
    assert(vals.subrange(0, vals.len() - 6) =~= g);
    assert(ascii_chars(pb) =~= prefix) by {
        assert forall|i: int| 0 <= i < prefix.len() implies #[trigger] ascii_chars(pb)[i] == prefix[i] by {
            assert(pb[i] == prefix[i] as u8);
        }
    }
}

/// The byte with a lower-case ASCII letter raised to upper case.
pub open spec fn to_upper(b: u8) -> u8 {
    if is_lower_ascii(b) {
        (b - 0x20) as u8
    } else {
        b
    }
}

proof fn lemma_separator_unique(s: Seq<u8>, p: int, q: int)
    requires
        separator_at(s, p),
        separator_at(s, q),
    ensures
        p == q,
{
    if p < q {
        assert(s[p] == 0x3b);
    } else if q < p {
        assert(s[q] == 0x3b);
    }
}

/// A string without upper-case letters decodes as its upper-case form does: both fail,
/// or both give the same prefix and data.
pub proof fn lemma_case_insensitive(s: Seq<u8>)
    requires
        !has_upper(s),
    ensures
        match (decoded(s.map_values(|b: u8| to_upper(b))), decoded(s)) {
            (Ok(a), Ok(b)) => a == b,
            (Err(_), Err(_)) => true,
            _ => false,
        },
{
    let u = s.map_values(|b: u8| to_upper(b));
    assert forall|i: int| 0 <= i < s.len() implies !is_upper_ascii(#[trigger] s[i]) by {
        if is_upper_ascii(s[i]) {
            assert(has_upper(s));
        }
    }
    assert forall|k: int| separator_at(u, k) == separator_at(s, k) by {
        if 0 <= k < s.len() {
            assert(u[k] == to_upper(s[k]));
        }
        if separator_at(s, k) {
            assert forall|j: int| 0 <= j < k implies u[j] != 0x3b by {
                assert(u[j] == to_upper(s[j]));
            }
        }
        if separator_at(u, k) {
            assert forall|j: int| 0 <= j < k implies s[j] != 0x3b by {
                assert(u[j] == to_upper(s[j]));
            }
        }
    }
    if exists|k: int| separator_at(s, k) {
        let k = choose|k: int| separator_at(s, k);
        let ku = choose|k: int| separator_at(u, k);
        assert(separator_at(u, k));
        lemma_separator_unique(u, k, ku);
        let ps = s.subrange(0, k);
        let pu = u.subrange(0, k);
        let ds = s.subrange(k + 1, s.len() as int);
        let du = u.subrange(k + 1, u.len() as int);
        assert(pu =~= ps.map_values(|b: u8| to_upper(b)));
        assert(du =~= ds.map_values(|b: u8| to_upper(b)));
        assert forall|i: int| bad_prefix_at(pu, i) == bad_prefix_at(ps, i) by {
            if 0 <= i < ps.len() {
                assert(pu[i] == to_upper(ps[i]));
                assert forall|j: int| 0 <= j < i implies is_prefix_char(pu[j]) == is_prefix_char(ps[j]) by {
                    assert(pu[j] == to_upper(ps[j]));
                }
            }
        }
        assert forall|i: int| bad_data_at(du, i) == bad_data_at(ds, i) by {
            if 0 <= i < ds.len() {
                assert(du[i] == to_upper(ds[i]));
                assert forall|j: int| 0 <= j < i implies is_data_char(du[j]) == is_data_char(ds[j]) by {
                    assert(du[j] == to_upper(ds[j]));
                }
            }
        }
        assert(!has_upper(ps)) by {
            assert forall|i: int| 0 <= i < ps.len() implies !is_upper_ascii(#[trigger] ps[i]) by {
                assert(ps[i] == s[i]);
            }
        }
        assert(!has_upper(ds)) by {
            assert forall|i: int| 0 <= i < ds.len() implies !is_upper_ascii(#[trigger] ds[i]) by {
                assert(ds[i] == s[k + 1 + i]);
            }
        }
        assert(!has_lower(pu)) by {
            assert forall|i: int| 0 <= i < pu.len() implies !is_lower_ascii(#[trigger] pu[i]) by {
                assert(pu[i] == to_upper(ps[i]));
            }
        }
        assert(!has_lower(du)) by {
            assert forall|i: int| 0 <= i < du.len() implies !is_lower_ascii(#[trigger] du[i]) by {
                assert(du[i] == to_upper(ds[i]));
            }
        }
        let lu = pu.map_values(|b: u8| to_lower(b));
        let ls = ps.map_values(|b: u8| to_lower(b));
        assert(lu =~= ls) by {
            assert forall|i: int| 0 <= i < ps.len() implies #[trigger] lu[i] == ls[i] by {
                assert(pu[i] == to_upper(ps[i]));
                assert(!is_upper_ascii(ps[i]));
            }
        }
        let vu = data_values(du);
        let vs = data_values(ds);
        assert(vu =~= vs) by {
            assert forall|i: int| 0 <= i < ds.len() implies #[trigger] vu[i] == vs[i] by {
                assert(du[i] == to_upper(ds[i]));
                assert(!is_upper_ascii(ds[i]));
            }
        }
    }
}

/// A string with both upper- and lower-case letters, and nothing else wrong before the
/// case check, is rejected for mixing case.
pub proof fn lemma_mixed_case_rejected(s: Seq<u8>, k: int)
    requires
        separator_at(s, k),
        MIN_LENGTH <= s.len() <= MAX_LENGTH,
        k > 0,
        s.len() - k - 1 >= 6,
        forall|i: int| 0 <= i < k ==> is_prefix_char(#[trigger] s[i]),
        forall|i: int| k < i < s.len() ==> is_data_char(#[trigger] s[i]),
        has_upper(s),
        has_lower(s),
    ensures
        decoded(s) == Err::<(Seq<u8>, Seq<u8>), Error>(Error::CaseInvalid),
{
    let kk = choose|q: int| separator_at(s, q);
    lemma_separator_unique(s, k, kk);
    let ps = s.subrange(0, k);
    let ds = s.subrange(k + 1, s.len() as int);
    assert(!exists|i: int| bad_prefix_at(ps, i)) by {
        assert forall|i: int| 0 <= i < ps.len() implies is_prefix_char(#[trigger] ps[i]) by {
            assert(ps[i] == s[i]);
        }
    }
    assert(!exists|i: int| bad_data_at(ds, i)) by {
        assert forall|i: int| 0 <= i < ds.len() implies is_data_char(#[trigger] ds[i]) by {
            assert(ds[i] == s[k + 1 + i]);
        }
    }
    let w = choose|i: int| 0 <= i < s.len() && is_upper_ascii(#[trigger] s[i]);
    if w < k {
        assert(ps[w] == s[w]);
    } else {
        assert(w != k);
        assert(ds[w - k - 1] == s[w]);
    }
    let z = choose|i: int| 0 <= i < s.len() && is_lower_ascii(#[trigger] s[i]);
    if z < k {
        assert(ps[z] == s[z]);
    } else {
        assert(z != k);
        assert(ds[z - k - 1] == s[z]);
    }
}

// ---------------------------------------------------------------------------
// Character classes
/// An upper-case ASCII letter.
pub open spec fn is_upper_ascii(b: u8) -> bool {
    0x41 <= b <= 0x5a
}

/// A lower-case ASCII letter.
pub open spec fn is_lower_ascii(b: u8) -> bool {
    0x61 <= b <= 0x7a
}

/// The byte with an upper-case ASCII letter folded to lower case.
pub open spec fn to_lower(b: u8) -> u8 {
    if is_upper_ascii(b) {
        (b + 0x20) as u8
    } else {
        b
    }
}

/// A byte allowed in a prefix: printable ASCII other than space.
pub open spec fn is_prefix_char(b: u8) -> bool {
    33 <= b <= 126
}

/// A byte allowed in the data part: ASCII letters and digits but `1 b i o`, in either case.
pub open spec fn is_data_char(b: u8) -> bool {
    (0x30 <= b <= 0x39 || is_upper_ascii(b) || is_lower_ascii(b)) && b != 0x31 && b != 0x42
        && b != 0x49 && b != 0x4f && b != 0x62 && b != 0x69 && b != 0x6f
}

/// A valid data byte, folded to lower case, is an alphabet symbol.
pub proof fn lemma_data_char_value(b: u8)
    requires
        is_data_char(b),
    ensures
        charset_value(to_lower(b)) < 32,
        charset_symbol(charset_value(to_lower(b))) == to_lower(b),
{
}

} // verus!
