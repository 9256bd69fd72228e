use vstd::prelude::*;
use crate::bytes::push_all;
use crate::codec::{format_bits, SampleFormat};

verus! {

/// The big-endian bytes of a 16-bit value.
pub open spec fn be16_bytes(v: u16) -> Seq<u8> {
    seq![(v / 256) as u8, (v % 256) as u8]
}

/// The big-endian bytes of a 32-bit value.
pub open spec fn be32_bytes(v: u32) -> Seq<u8> {
    seq![
        (v / 16777216) as u8,
        ((v / 65536) % 256) as u8,
        ((v / 256) % 256) as u8,
        (v % 256) as u8,
    ]
}

/// The big-endian bytes of a 64-bit value.
pub open spec fn be64_bytes(v: u64) -> Seq<u8> {
    be32_bytes((v / 0x1_0000_0000) as u32) + be32_bytes((v % 0x1_0000_0000) as u32)
}

/// Two to the power `n`.
pub open spec fn two_pow(n: nat) -> nat
    decreases n,
{
    if n == 0 {
        1
    } else {
        2 * two_pow((n - 1) as nat)
    }
}

/// The number of binary digits of `r` (0 for 0).
pub open spec fn bit_len(r: nat) -> nat
    decreases r,
{
    if r == 0 {
        0
    } else {
        1 + bit_len(r / 2)
    }
}

/// The ten bytes that stand for a sample rate in the `COMM` chunk. The rates
/// 44100, 48000, 88200 and 96000 come from a table of 80-bit extended values;
/// 0 is ten zero bytes; any other rate `r` of `k` binary digits is written as
/// the exponent `16383 + k` in two bytes, then, in eight bytes, the part of
/// `r` below its top bit shifted left by `54 - k`.
pub open spec fn extended_rate(rate: u32) -> Seq<u8> {
    if rate == 44100 {
        seq![0x40u8, 0x0E, 0xAC, 0x44, 0, 0, 0, 0, 0, 0]
    } else if rate == 48000 {
        seq![0x40u8, 0x0E, 0xBB, 0x80, 0, 0, 0, 0, 0, 0]
    } else if rate == 88200 {
        seq![0x40u8, 0x0F, 0xAC, 0x44, 0, 0, 0, 0, 0, 0]
    } else if rate == 96000 {
        seq![0x40u8, 0x0F, 0xBB, 0x80, 0, 0, 0, 0, 0, 0]
    } else if rate == 0 {
        seq![0u8, 0, 0, 0, 0, 0, 0, 0, 0, 0]
    } else {
        let k = bit_len(rate as nat);
        let e = 16383 + k;
        let m = (rate - two_pow((k - 1) as nat)) * two_pow((54 - k) as nat);
        seq![((e / 256) % 128) as u8, (e % 256) as u8] + be64_bytes(m as u64)
    }
}

/// A `FORM`/`AIFF` header declaring `size` bytes after its size field.
pub open spec fn form_header(size: u32) -> Seq<u8> {
    seq![70u8, 79, 82, 77] + be32_bytes(size) + seq![65u8, 73, 70, 70]
}

/// An 18-byte `COMM` chunk: channel count, frame count, bit depth and the
/// ten bytes of the sample rate.
pub open spec fn comm_chunk(channels: u16, frames: u32, bits: u16, sample_rate: u32) -> Seq<u8> {
    seq![67u8, 79, 77, 77] + be32_bytes(18) + be16_bytes(channels) + be32_bytes(frames)
        + be16_bytes(bits) + extended_rate(sample_rate)
}

/// The header of an `SSND` chunk of `size` bytes, with zero offset and block
/// size.
pub open spec fn ssnd_header(size: u32) -> Seq<u8> {
    seq![83u8, 83, 78, 68] + be32_bytes(size) + be32_bytes(0) + be32_bytes(0)
}

/// The AIFF file holding `samples` (already encoded): a `FORM`/`AIFF`
/// header, a `COMM` chunk and an `SSND` chunk holding the samples.
pub open spec fn aif_bytes(
    format: SampleFormat,
    channels: u16,
    frames: u32,
    sample_rate: u32,
    samples: Seq<u8>,
) -> Seq<u8> {
    let n = samples.len();
    form_header((((54 + n) % 0x1_0000_0000) - 8) as u32) + comm_chunk(
        channels,
        frames,
        format_bits(format),
        sample_rate,
    ) + ssnd_header(((n % 0x1_0000_0000) + 8) as u32) + samples
}

/// Whether the size fields of an AIFF file around `n` sample bytes can be
/// computed: the file length modulo 2^32 is at least 8, and the sample byte
/// count modulo 2^32 leaves room for the eight bytes of offset and block size.
pub open spec fn aif_sizes_fit(n: nat) -> bool {
    (54 + n) % 0x1_0000_0000 >= 8 && n % 0x1_0000_0000 + 8 <= u32::MAX
}

proof fn lemma_bit_len(r: nat)
    requires
        r > 0,
    ensures
        bit_len(r) >= 1,
        two_pow((bit_len(r) - 1) as nat) <= r < two_pow(bit_len(r)),
    decreases r,
{
    if r == 1 {
        assert(bit_len(0) == 0);
        assert(bit_len(1) == 1);
        assert(two_pow(0) == 1);
        assert(two_pow(1) == 2);
    } else {
        let b = bit_len(r / 2);
        lemma_bit_len(r / 2);
        assert(bit_len(r) == 1 + b);
        assert(two_pow(b) == 2 * two_pow((b - 1) as nat));
        assert(two_pow(b + 1) == 2 * two_pow(b));
    }
}

proof fn lemma_two_pow_mono(a: nat, b: nat)
    requires
        a <= b,
    ensures
        two_pow(a) <= two_pow(b),
    decreases b,
{
    if a < b {
        lemma_two_pow_mono(a, (b - 1) as nat);
    }
}

fn push_be16(out: &mut Vec<u8>, v: u16)
    ensures
        final(out)@ == old(out)@ + be16_bytes(v),
{
    out.push((v / 256) as u8);
    out.push((v % 256) as u8);
    assert(final(out)@ =~= old(out)@ + be16_bytes(v));
}

fn push_be32(out: &mut Vec<u8>, v: u32)
    ensures
        final(out)@ == old(out)@ + be32_bytes(v),
{
    out.push((v / 16777216) as u8);
    out.push(((v / 65536) % 256) as u8);
    out.push(((v / 256) % 256) as u8);
    out.push((v % 256) as u8);
    assert(final(out)@ =~= old(out)@ + be32_bytes(v));
}

fn push_be64(out: &mut Vec<u8>, v: u64)
    ensures
        final(out)@ == old(out)@ + be64_bytes(v),
{
    push_be32(out, (v / 0x1_0000_0000) as u32);
    push_be32(out, (v % 0x1_0000_0000) as u32);
    assert(final(out)@ =~= old(out)@ + be64_bytes(v));
}

fn push_bytes10(out: &mut Vec<u8>, b: [u8; 10])
    ensures
        final(out)@ == old(out)@ + b@,
{
    let mut i: usize = 0;
    let ghost start = out@;
    while i < 10
        invariant
            0 <= i <= 10,
            out@ == start + b@.take(i as int),
        decreases 10 - i,
    {
        out.push(b[i]);
        assert(b@.take(i + 1) =~= b@.take(i as int).push(b@[i as int]));
        i = i + 1;
    }
    assert(b@.take(10) =~= b@);
}

/// Appends the ten bytes that stand for a sample rate in the `COMM` chunk.
fn push_extended_rate(out: &mut Vec<u8>, rate: u32)
    ensures
        final(out)@ == old(out)@ + extended_rate(rate),
{
    if rate == 44100 {
        let b: [u8; 10] = [0x40, 0x0E, 0xAC, 0x44, 0, 0, 0, 0, 0, 0];
        push_bytes10(out, b);
        assert(b@ =~= extended_rate(rate));
        return;
    } else if rate == 48000 {
        let b: [u8; 10] = [0x40, 0x0E, 0xBB, 0x80, 0, 0, 0, 0, 0, 0];
        push_bytes10(out, b);
        assert(b@ =~= extended_rate(rate));
        return;
    } else if rate == 88200 {
        let b: [u8; 10] = [0x40, 0x0F, 0xAC, 0x44, 0, 0, 0, 0, 0, 0];
        push_bytes10(out, b);
        assert(b@ =~= extended_rate(rate));
        return;
    } else if rate == 96000 {
        let b: [u8; 10] = [0x40, 0x0F, 0xBB, 0x80, 0, 0, 0, 0, 0, 0];
        push_bytes10(out, b);
        assert(b@ =~= extended_rate(rate));
        return;
    } else if rate == 0 {
        let b: [u8; 10] = [0, 0, 0, 0, 0, 0, 0, 0, 0, 0];
        push_bytes10(out, b);
        assert(b@ =~= extended_rate(rate));
        return;
    }
    let r: u64 = rate as u64;
    let mut k: u64 = 1;
    let mut v: u64 = r;
    let mut top: u64 = 1;
    assert(two_pow(0) == 1);
    assert(two_pow(32) == 0x1_0000_0000) by {
        reveal_with_fuel(two_pow, 33);
    }
    while v > 1
        invariant
            1 <= v,
            1 <= k <= 33,
            two_pow(32) == 0x1_0000_0000,
            r == rate,
            1 <= top <= r,
            top == two_pow((k - 1) as nat),
            top * v <= r < top * (v + 1),
            bit_len(r as nat) == k + bit_len(v as nat) - 1,
            r <= u32::MAX,
        decreases v,
    {
        assert(2 * top * (v / 2) <= top * v) by (nonlinear_arith)
            requires
                v > 1,
                top >= 1,
        ;
        assert(top * (v + 1) <= 2 * top * (v / 2 + 1)) by (nonlinear_arith)
            requires
                v > 1,
                top >= 1,
        ;
        assert(2 * top <= top * v) by (nonlinear_arith)
            requires
                v > 1,
                top >= 1,
        ;
        assert(bit_len(v as nat) == 1 + bit_len((v / 2) as nat));
        proof {
            if k >= 33 {
                lemma_two_pow_mono(32, k as nat);
                assert(two_pow(k as nat) == 2 * two_pow((k - 1) as nat));
            }
        }
        top = top * 2;
        v = v / 2;
        k = k + 1;
        assert(top * v == 2 * (top / 2) * v);
    }
    proof {
        assert(v == 1);
        assert(bit_len(1) == 1) by {
            assert(bit_len(0) == 0);
        }
        assert(top <= r < 2 * top);
    }
    let mut m: u64 = r - top;
    let mut i: u64 = 0;
    proof {
        assert(two_pow(53) == 0x20_0000_0000_0000) by {
            reveal_with_fuel(two_pow, 54);
        }
    }
    while k + i < 54
        invariant
            1 <= k <= 33,
            k + i <= 54,
            top == two_pow((k - 1) as nat),
            m == (r - top) * two_pow(i as nat),
            m < two_pow((k - 1 + i) as nat),
            two_pow(53) == 0x20_0000_0000_0000,
        decreases 54 - k - i,
    {
        proof {
            lemma_two_pow_mono((k + i) as nat, 53);
            assert(two_pow((k + i) as nat) == 2 * two_pow((k - 1 + i) as nat));
            assert((r - top) * two_pow((i + 1) as nat) == 2 * ((r - top) * two_pow(i as nat))) by {
                assert(two_pow((i + 1) as nat) == 2 * two_pow(i as nat));
                assert((r - top) * (2 * two_pow(i as nat)) == 2 * ((r - top) * two_pow(i as nat)))
                    by (nonlinear_arith);
            }
        }
        m = m * 2;
        i = i + 1;
    }
    let e: u64 = 16383 + k;
    out.push(((e / 256) % 128) as u8);
    out.push((e % 256) as u8);
    let ghost mid = out@;
    push_be64(out, m);
    proof {
        assert(bit_len(r as nat) == k);
        assert(i == 54 - k);
        assert(mid == old(out)@ + seq![((e / 256) % 128) as u8, (e % 256) as u8]);
        assert(out@ =~= old(out)@ + extended_rate(rate));
    }
}

fn push_form_header(out: &mut Vec<u8>, size: u32)
    ensures
        final(out)@ == old(out)@ + form_header(size),
{
    out.push(70);
    out.push(79);
    out.push(82);
    out.push(77);
    push_be32(out, size);
    out.push(65);
    out.push(73);
    out.push(70);
    out.push(70);
    assert(final(out)@ =~= old(out)@ + form_header(size));
}

fn push_comm_chunk(out: &mut Vec<u8>, channels: u16, frames: u32, bits: u16, sample_rate: u32)
    ensures
        final(out)@ == old(out)@ + comm_chunk(channels, frames, bits, sample_rate),
{
    out.push(67);
    out.push(79);
    out.push(77);
    out.push(77);
    push_be32(out, 18);
    push_be16(out, channels);
    push_be32(out, frames);
    push_be16(out, bits);
    push_extended_rate(out, sample_rate);
    assert(final(out)@ =~= old(out)@ + comm_chunk(channels, frames, bits, sample_rate));
}

fn push_ssnd_header(out: &mut Vec<u8>, size: u32)
    ensures
        final(out)@ == old(out)@ + ssnd_header(size),
{
    out.push(83);
    out.push(83);
    out.push(78);
    out.push(68);
    push_be32(out, size);
    push_be32(out, 0);
    push_be32(out, 0);
    assert(final(out)@ =~= old(out)@ + ssnd_header(size));
}

/// Writer of AIFF files.
pub struct AifCodec;

impl AifCodec {
    /// Writes an AIFF file around already encoded sample bytes: `frames`
    /// sample frames of `channels` channels in `format` at `sample_rate`.
    pub fn encode(
        &self,
        format: SampleFormat,
        channels: u16,
        frames: u32,
        sample_rate: u32,
        samples: &[u8],
    ) -> (r: Vec<u8>)
        requires
            samples@.len() <= isize::MAX,
            aif_sizes_fit(samples@.len()),
        ensures
            r@ == aif_bytes(format, channels, frames, sample_rate, samples@),
            r@.len() == 54 + samples@.len(),
    {
        let n: u64 = samples.len() as u64;
        let form_size: u32 = (((54 + n) % 0x1_0000_0000) as u32) - 8;
        let ssnd_size: u32 = ((n % 0x1_0000_0000) as u32) + 8;
        let mut out: Vec<u8> = Vec::new();
        push_form_header(&mut out, form_size);
        push_comm_chunk(&mut out, channels, frames, format.bits_per_sample(), sample_rate);
        push_ssnd_header(&mut out, ssnd_size);
        push_all(&mut out, samples);
        proof {
            assert(Seq::<u8>::empty() + form_header(form_size) =~= form_header(form_size));
        }
        out
    }
}

} // verus!
