//! PCM audio as bytes.
//!
//! A sample is a little-endian IEEE 754 single-precision number. Samples
//! are handled by their bit patterns.

use vstd::prelude::*;
use vstd::string::*;

use crate::errors::{native, NativeError, NativeErrorView};
use crate::text::{decimal, decimal_of};

verus! {

/// The bits of the number that four bytes hold, least significant first.
pub open spec fn bits_of(b0: u8, b1: u8, b2: u8, b3: u8) -> u32 {
    (b0 + 0x100 * b1 + 0x1_0000 * b2 + 0x100_0000 * b3) as u32
}

/// The exponent of a number, as its bits hold it.
pub open spec fn exponent_of(bits: u32) -> u32 {
    (bits / 0x80_0000) % 0x100
}

/// Whether the bits are a number: neither an infinity nor a NaN, whose
/// exponents are all ones.
pub open spec fn finite(bits: u32) -> bool {
    exponent_of(bits) != 0xff
}

/// Whether the bits are a number.
pub fn is_finite(bits: u32) -> (r: bool)
    ensures
        r == finite(bits),
{
    (bits / 0x80_0000) % 0x100 != 0xff
}

/// The samples that bytes hold.
pub open spec fn samples_in(bytes: Seq<u8>) -> Seq<u32> {
    Seq::new(
        bytes.len() / 4,
        |i: int|
            bits_of(bytes[4 * i], bytes[4 * i + 1], bytes[4 * i + 2], bytes[4 * i + 3]),
    )
}

/// Whether every sample is a number.
pub open spec fn all_finite(samples: Seq<u32>) -> bool {
    forall|i: int| 0 <= i < samples.len() ==> finite(#[trigger] samples[i])
}

/// The report for bytes that are not a whole number of samples.
pub open spec fn misaligned(len: nat) -> NativeErrorView {
    native(
        "invalid_request"@,
        "samples binary length must be a multiple of 4 (f32)"@,
    ).with("byte_length"@, decimal_of(len))
}

/// The report for samples that are no numbers.
pub open spec fn corrupted() -> NativeErrorView {
    native("invalid_request"@, "samples contain NaN or infinity"@)
}

/// The samples that bytes hold, or why they hold none.
pub open spec fn decoded_pcm(bytes: Seq<u8>) -> Result<Seq<u32>, NativeErrorView> {
    if bytes.len() % 4 != 0 {
        Err(misaligned(bytes.len()))
    } else if !all_finite(samples_in(bytes)) {
        Err(corrupted())
    } else {
        Ok(samples_in(bytes))
    }
}

/// Reads the samples of a PCM buffer. Corrupted samples are rejected, not
/// transcribed as silence.
pub fn decode_pcm_f32(bytes: &[u8]) -> (r: Result<Vec<u32>, NativeError>)
    ensures
        match r {
            Ok(samples) => decoded_pcm(bytes@) == Ok::<_, NativeErrorView>(samples@),
            Err(e) => decoded_pcm(bytes@) == Err::<Seq<u32>, _>(e@),
        },
{
    if bytes.len() % 4 != 0 {
        return Err(
            NativeError::new(
                "invalid_request",
                "samples binary length must be a multiple of 4 (f32)".to_owned(),
            ).with_detail("byte_length", decimal(bytes.len() as u128)),
        );
    }
    let ghost all = samples_in(bytes@);
    let n: usize = bytes.len() / 4;
    let mut out: Vec<u32> = Vec::new();
    for i in 0..n
        invariant
            n == bytes@.len() / 4,
            bytes@.len() <= usize::MAX,
            bytes@.len() % 4 == 0,
            all == samples_in(bytes@),
            out@ == all.take(i as int),
            forall|k: int| 0 <= k < i ==> finite(#[trigger] all[k]),
    {
        assert(4 * i + 3 < bytes@.len());
        let at: usize = 4 * i;
        let bits: u32 = (bytes[at] as u32) + 0x100 * (bytes[at + 1] as u32) + 0x1_0000 * (bytes[at
            + 2] as u32) + 0x100_0000 * (bytes[at + 3] as u32);
        assert(bits == all[i as int]);
        assert(all.take(i + 1) =~= all.take(i as int).push(bits));
        if !is_finite(bits) {
            assert(!finite(all[i as int]));
            return Err(
                NativeError::new("invalid_request", "samples contain NaN or infinity".to_owned()),
            );
        }
        out.push(bits);
    }
    assert(all.take(n as int) =~= all);
    Ok(out)
}

/// The bytes of a sample.
pub open spec fn sample_bytes(bits: u32) -> Seq<u8> {
    seq![
        (bits % 0x100) as u8,
        (bits / 0x100 % 0x100) as u8,
        (bits / 0x1_0000 % 0x100) as u8,
        (bits / 0x100_0000) as u8,
    ]
}

/// The bytes of a list of samples.
pub open spec fn pcm_bytes(samples: Seq<u32>) -> Seq<u8> {
    Seq::new(4 * samples.len(), |i: int| sample_bytes(samples[i / 4])[i % 4])
}

/// The bytes of a sample hold its bits.
proof fn lemma_sample_round_trip(bits: u32)
    ensures
        bits_of(
            sample_bytes(bits)[0],
            sample_bytes(bits)[1],
            sample_bytes(bits)[2],
            sample_bytes(bits)[3],
        ) == bits,
{
}

/// What is written is read back: the bytes of samples that are numbers
/// decode to those samples.
pub proof fn law_pcm_round_trip(samples: Seq<u32>)
    requires
        all_finite(samples),
    ensures
        decoded_pcm(pcm_bytes(samples)) == Ok::<_, NativeErrorView>(samples),
{
    let bytes = pcm_bytes(samples);
    assert forall|i: int| 0 <= i < samples.len() implies #[trigger] samples_in(bytes)[i]
        == samples[i] by {
        let bits = samples[i];
        assert((4 * i) / 4 == i && (4 * i) % 4 == 0);
        assert((4 * i + 1) / 4 == i && (4 * i + 1) % 4 == 1);
        assert((4 * i + 2) / 4 == i && (4 * i + 2) % 4 == 2);
        assert((4 * i + 3) / 4 == i && (4 * i + 3) % 4 == 3);
        lemma_sample_round_trip(bits);
    }
    assert(samples_in(bytes) =~= samples);
}

/// A sample is a number exactly where the eight bits of its exponent are
/// not all ones, whatever its sign and its fraction are.
pub proof fn law_all_ones_are_no_number(sign: u32, exponent: u32, fraction: u32)
    requires
        sign < 2,
        exponent < 0x100,
        fraction < 0x80_0000,
    ensures
        finite((sign * 0x8000_0000 + exponent * 0x80_0000 + fraction) as u32) <==> exponent != 0xff,
{
    let bits = sign * 0x8000_0000 + exponent * 0x80_0000 + fraction;
    assert(bits / 0x80_0000 == sign * 0x100 + exponent);
    assert((sign * 0x100 + exponent) % 0x100 == exponent);
}

/// What is read is what was written: bytes that decode are the bytes of the
/// samples that come out, least significant first. They decode exactly where they are whole samples
/// and every sample is a number, and the report says which it is that
/// fails.
pub proof fn law_pcm_is_read_as_written(bytes: Seq<u8>)
    ensures
        decoded_pcm(bytes) matches Ok(samples) ==> {
            &&& pcm_bytes(samples) == bytes
            &&& all_finite(samples)
            &&& 4 * samples.len() == bytes.len()
            &&& forall|i: int|
                0 <= i < samples.len() ==> #[trigger] samples[i] == bytes[4 * i] + 256 * bytes[4 * i
                    + 1] + 65536 * bytes[4 * i + 2] + 16777216 * bytes[4 * i + 3]
        },
        decoded_pcm(bytes) is Ok <==> exists|samples: Seq<u32>|
            all_finite(samples) && #[trigger] pcm_bytes(samples) == bytes,
        bytes.len() % 4 == 0 && decoded_pcm(bytes) is Err ==> decoded_pcm(bytes) == Err::<
            Seq<u32>,
            _,
        >(native("invalid_request"@, "samples contain NaN or infinity"@)),
        bytes.len() % 4 != 0 <==> decoded_pcm(bytes) == Err::<Seq<u32>, _>(
            native(
                "invalid_request"@,
                "samples binary length must be a multiple of 4 (f32)"@,
            ).with("byte_length"@, decimal_of(bytes.len())),
        ),
{
    if bytes.len() % 4 == 0 {
        let samples = samples_in(bytes);
        assert forall|i: int| 0 <= i < bytes.len() implies #[trigger] pcm_bytes(samples)[i]
            == bytes[i] by {
            let k = i / 4;
            assert(i == 4 * k + i % 4);
            lemma_bits_round_trip(
                bytes[4 * k],
                bytes[4 * k + 1],
                bytes[4 * k + 2],
                bytes[4 * k + 3],
            );
        }
        assert(pcm_bytes(samples) =~= bytes);
        assert(all_finite(samples) ==> decoded_pcm(bytes) is Ok);
    }
    if exists|samples: Seq<u32>| all_finite(samples) && #[trigger] pcm_bytes(samples) == bytes {
        let samples = choose|samples: Seq<u32>|
            all_finite(samples) && #[trigger] pcm_bytes(samples) == bytes;
        law_pcm_round_trip(samples);
    }
    reveal_strlit("samples binary length must be a multiple of 4 (f32)");
    reveal_strlit("samples contain NaN or infinity");
    assert("samples binary length must be a multiple of 4 (f32)"@.len() == 51);
    assert("samples contain NaN or infinity"@.len() == 31);
}

/// The bits of four bytes hold the bytes.
proof fn lemma_bits_round_trip(b0: u8, b1: u8, b2: u8, b3: u8)
    ensures
        sample_bytes(bits_of(b0, b1, b2, b3)) == seq![b0, b1, b2, b3],
{
    let bits = bits_of(b0, b1, b2, b3);
    assert(bits == b0 + 0x100 * b1 + 0x1_0000 * b2 + 0x100_0000 * b3);
    assert(bits % 0x100 == b0);
    assert(bits / 0x100 == b1 + 0x100 * b2 + 0x1_0000 * b3);
    assert(bits / 0x1_0000 == b2 + 0x100 * b3);
    assert(bits / 0x100_0000 == b3);
    assert(sample_bytes(bits) =~= seq![b0, b1, b2, b3]);
}

} // verus!
