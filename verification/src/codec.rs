use vstd::prelude::*;
use crate::bytes::{
    le16, le16_bytes, le32, le32_bytes, push_all, push_le16, push_le32, read_le16, read_le32,
};

verus! {

/// Sample encodings that an audio buffer can hold.
#[derive(Debug, Clone, Copy, PartialEq, Eq, Structural)]
pub enum SampleFormat {
    U8,
    I16,
    I24,
    I32,
    F32,
}

/// Bit depth of one sample of the given format.
pub open spec fn format_bits(f: SampleFormat) -> u16 {
    match f {
        SampleFormat::U8 => 8,
        SampleFormat::I16 => 16,
        SampleFormat::I24 => 24,
        SampleFormat::I32 => 32,
        SampleFormat::F32 => 32,
    }
}

impl SampleFormat {
    /// Number of bits that one sample of this format occupies.
    pub fn bits_per_sample(&self) -> (bits: u16)
        ensures
            bits == format_bits(*self),
    {
        match self {
            SampleFormat::U8 => 8,
            SampleFormat::I16 => 16,
            SampleFormat::I24 => 24,
            SampleFormat::I32 => 32,
            SampleFormat::F32 => 32,
        }
    }
}


/// Why a WAV file could not be read.
#[derive(Debug, Clone, Copy, PartialEq, Eq, Structural)]
pub enum WavError {
    /// The file is shorter than a RIFF header.
    TooSmall,
    /// The file does not start with a `RIFF....WAVE` header.
    NotWav,
    /// The file ended inside a chunk header or chunk.
    UnexpectedEof,
    /// The `fmt ` chunk names a format tag and bit depth that are not supported.
    UnsupportedFormat(u16, u16),
    /// A `data` chunk came before any `fmt ` chunk, so its bit depth is unknown.
    UnsupportedBitDepth,
    /// The file has no `fmt ` chunk or no `data` chunk.
    MissingChunk,
}

/// The format of a WAV file, as its `fmt ` chunk gives it.
#[derive(Debug, Clone, Copy, PartialEq, Eq, Structural)]
pub struct FmtInfo {
    pub format: SampleFormat,
    pub channels: u16,
    pub sample_rate: u32,
    pub bits_per_sample: u16,
}

/// A `data` chunk: where its samples lie and how they are to be decoded,
/// by the `fmt ` chunk read before it.
#[derive(Debug, Clone, Copy, PartialEq, Eq, Structural)]
pub struct DataInfo {
    pub offset: usize,
    pub len: usize,
    pub channels: u16,
    pub bits_per_sample: u16,
    pub is_float: bool,
}

/// What reading the chunks of a WAV file found: the last `fmt ` chunk, the
/// last `data` chunk, and whether some `data` chunk came under a format of
/// zero channels.
#[derive(Debug, Clone, Copy, PartialEq, Eq, Structural)]
pub struct WavLayout {
    pub fmt: FmtInfo,
    pub data: DataInfo,
    pub zero_channel_data: bool,
}

/// Format tag of integer PCM samples.
pub const FORMAT_PCM: u16 = 1;

/// Format tag of IEEE float samples.
pub const FORMAT_IEEE_FLOAT: u16 = 3;

/// The sample format that a format tag and bit depth denote.
pub open spec fn format_of(tag: u16, bits: u16) -> Option<SampleFormat> {
    if tag == FORMAT_PCM && bits == 8 {
        Some(SampleFormat::U8)
    } else if tag == FORMAT_PCM && bits == 16 {
        Some(SampleFormat::I16)
    } else if tag == FORMAT_PCM && bits == 24 {
        Some(SampleFormat::I24)
    } else if tag == FORMAT_PCM && bits == 32 {
        Some(SampleFormat::I32)
    } else if tag == FORMAT_IEEE_FLOAT && bits == 32 {
        Some(SampleFormat::F32)
    } else {
        None
    }
}

/// The format tag and bit depth under which a sample format is written.
pub open spec fn tag_of(f: SampleFormat) -> (u16, u16) {
    match f {
        SampleFormat::F32 => (FORMAT_IEEE_FLOAT, 32u16),
        SampleFormat::I16 => (FORMAT_PCM, 16u16),
        SampleFormat::I24 => (FORMAT_PCM, 24u16),
        SampleFormat::I32 => (FORMAT_PCM, 32u16),
        SampleFormat::U8 => (FORMAT_PCM, 8u16),
    }
}

/// Whether the four bytes at `pos` are the identifier `a b c d`.
pub open spec fn id_at(s: Seq<u8>, pos: int, a: u8, b: u8, c: u8, d: u8) -> bool {
    s[pos] == a && s[pos + 1] == b && s[pos + 2] == c && s[pos + 3] == d
}

/// Whether a WAV file's signature is valid: at least a RIFF header, starting
/// with `RIFF` and with `WAVE` at offset 8.
pub open spec fn wav_signature_ok(s: Seq<u8>) -> bool {
    s.len() >= 12 && id_at(s, 0, 82, 73, 70, 70) && id_at(s, 8, 87, 65, 86, 69)
}

/// Checks a WAV file's signature: succeeds when the file supports decoding,
/// that is when it starts with a `RIFF....WAVE` header.
pub fn validate_file_format(data: &[u8]) -> (r: Result<(), WavError>)
    ensures
        r is Ok <==> wav_signature_ok(data@),
        r == Err::<(), WavError>(WavError::TooSmall) <==> data@.len() < 12,
        r == Err::<(), WavError>(WavError::NotWav) <==> data@.len() >= 12 && !wav_signature_ok(data@),
{
    if data.len() < 12 {
        return Err(WavError::TooSmall);
    }
    if data[0] == 82 && data[1] == 73 && data[2] == 70 && data[3] == 70 && data[8] == 87 && data[9]
        == 65 && data[10] == 86 && data[11] == 69 {
        Ok(())
    } else {
        Err(WavError::NotWav)
    }
}

/// The state of reading a WAV file's chunks.
pub struct WalkState {
    pub fmt: Option<FmtInfo>,
    pub data: Option<DataInfo>,
    pub zero_channel_data: bool,
}

/// Reads the chunks of a WAV file from offset `pos` on. A `fmt ` chunk is
/// read as 16 bytes of fields whatever its declared size, then its remaining
/// bytes and pad byte are passed over; a `data` chunk is taken with the format
/// read so far; other chunks are passed over. Reading ends where fewer than
/// four bytes remain.
pub open spec fn wav_walk(s: Seq<u8>, pos: int, st: WalkState) -> Result<WalkState, WavError>
    decreases (if pos < s.len() { s.len() - pos } else { 0 }),
{
    if pos < 0 || pos + 4 > s.len() {
        Ok(st)
    } else if pos + 8 > s.len() {
        Err(WavError::UnexpectedEof)
    } else {
        let size = le32(s, pos + 4);
        if id_at(s, pos, 102, 109, 116, 32) {
            if pos + 24 > s.len() {
                Err(WavError::UnexpectedEof)
            } else {
                let tag = le16(s, pos + 8) as u16;
                let bits = le16(s, pos + 22) as u16;
                match format_of(tag, bits) {
                    None => Err(WavError::UnsupportedFormat(tag, bits)),
                    Some(f) => {
                        let info = FmtInfo {
                            format: f,
                            channels: le16(s, pos + 10) as u16,
                            sample_rate: le32(s, pos + 12) as u32,
                            bits_per_sample: bits,
                        };
                        let next = pos + 24 + (if size > 16 { size - 16 } else { 0 }) + size % 2;
                        wav_walk(s, next, WalkState { fmt: Some(info), ..st })
                    },
                }
            }
        } else if id_at(s, pos, 100, 97, 116, 97) {
            if pos + 8 + size > s.len() {
                Err(WavError::UnexpectedEof)
            } else {
                match st.fmt {
                    None => Err(WavError::UnsupportedBitDepth),
                    Some(info) => {
                        let d = DataInfo {
                            offset: (pos + 8) as usize,
                            len: size as usize,
                            channels: info.channels,
                            bits_per_sample: info.bits_per_sample,
                            is_float: info.format == SampleFormat::F32,
                        };
                        wav_walk(
                            s,
                            pos + 8 + size + size % 2,
                            WalkState {
                                data: Some(d),
                                zero_channel_data: st.zero_channel_data || info.channels == 0,
                                ..st
                            },
                        )
                    },
                }
            }
        } else {
            wav_walk(s, pos + 8 + size + size % 2, st)
        }
    }
}

/// What reading a WAV file gives: its signature checked, its chunks read, and
/// a `fmt ` and a `data` chunk required.
pub open spec fn wav_layout(s: Seq<u8>) -> Result<WavLayout, WavError> {
    if s.len() < 12 {
        Err(WavError::TooSmall)
    } else if !wav_signature_ok(s) {
        Err(WavError::NotWav)
    } else {
        match wav_walk(s, 12, WalkState { fmt: None, data: None, zero_channel_data: false }) {
            Err(e) => Err(e),
            Ok(st) => match (st.fmt, st.data) {
                (Some(f), Some(d)) => Ok(
                    WavLayout { fmt: f, data: d, zero_channel_data: st.zero_channel_data },
                ),
                _ => Err(WavError::MissingChunk),
            },
        }
    }
}

fn format_from_tag(tag: u16, bits: u16) -> (r: Option<SampleFormat>)
    ensures
        r == format_of(tag, bits),
{
    if tag == FORMAT_PCM && bits == 8 {
        Some(SampleFormat::U8)
    } else if tag == FORMAT_PCM && bits == 16 {
        Some(SampleFormat::I16)
    } else if tag == FORMAT_PCM && bits == 24 {
        Some(SampleFormat::I24)
    } else if tag == FORMAT_PCM && bits == 32 {
        Some(SampleFormat::I32)
    } else if tag == FORMAT_IEEE_FLOAT && bits == 32 {
        Some(SampleFormat::F32)
    } else {
        None
    }
}

/// Reads the layout of a WAV file: its format and where its samples lie.
/// Decoding the samples themselves is left to the caller.
pub fn parse_wav(input: &[u8]) -> (r: Result<WavLayout, WavError>)
    requires
        input@.len() <= isize::MAX,
    ensures
        r matches Ok(l) ==> wav_layout(input@) == Ok::<WavLayout, WavError>(l),
        r matches Err(e) ==> wav_layout(input@) == Err::<WavLayout, WavError>(e),
{
    match validate_file_format(input) {
        Err(e) => return Err(e),
        Ok(()) => {},
    }
    let len = input.len() as u64;
    let mut pos: u64 = 12;
    let mut fmt: Option<FmtInfo> = None;
    let mut data: Option<DataInfo> = None;
    let mut zero = false;
    while pos + 4 <= len
        invariant
            len == input@.len(),
            len <= isize::MAX,
            12 <= pos <= len + 0x1_0000_0019,
            wav_signature_ok(input@),
            wav_walk(input@, 12, WalkState { fmt: None, data: None, zero_channel_data: false }) == wav_walk(
                input@,
                pos as int,
                WalkState { fmt: fmt, data: data, zero_channel_data: zero },
            ),
        decreases (if pos < len { len - pos } else { 0 }),
    {
        if pos + 8 > len {
            return Err(WavError::UnexpectedEof);
        }
        let p = pos as usize;
        let size = read_le32(input, p + 4);
        if input[p] == 102 && input[p + 1] == 109 && input[p + 2] == 116 && input[p + 3] == 32 {
            if pos + 24 > len {
                return Err(WavError::UnexpectedEof);
            }
            let tag = read_le16(input, p + 8);
            let bits = read_le16(input, p + 22);
            let f = match format_from_tag(tag, bits) {
                Some(f) => f,
                None => return Err(WavError::UnsupportedFormat(tag, bits)),
            };
            let channels = read_le16(input, p + 10);
            let sample_rate = read_le32(input, p + 12);
            fmt = Some(FmtInfo { format: f, channels, sample_rate, bits_per_sample: bits });
            let extra: u64 = if size > 16 {
                (size - 16) as u64
            } else {
                0
            };
            pos = pos + 24 + extra + (size % 2) as u64;
        } else if input[p] == 100 && input[p + 1] == 97 && input[p + 2] == 116 && input[p + 3] == 97 {
            if pos + 8 + size as u64 > len {
                return Err(WavError::UnexpectedEof);
            }
            let info = match fmt {
                Some(i) => i,
                None => return Err(WavError::UnsupportedBitDepth),
            };
            data = Some(
                DataInfo {
                    offset: p + 8,
                    len: size as usize,
                    channels: info.channels,
                    bits_per_sample: info.bits_per_sample,
                    is_float: info.format == SampleFormat::F32,
                },
            );
            zero = zero || info.channels == 0;
            pos = pos + 8 + size as u64 + (size % 2) as u64;
        } else {
            pos = pos + 8 + size as u64 + (size % 2) as u64;
        }
    }
    match (fmt, data) {
        (Some(f), Some(d)) => Ok(WavLayout { fmt: f, data: d, zero_channel_data: zero }),
        _ => Err(WavError::MissingChunk),
    }
}


/// Whether the header fields of a WAV file with these parameters can be
/// computed: the block alignment fits in 16 bits and the byte rate in 32.
pub open spec fn wav_header_fits(format: SampleFormat, channels: u16, sample_rate: u32) -> bool {
    let bits = tag_of(format).1;
    channels * bits <= u16::MAX && sample_rate * channels <= u32::MAX && sample_rate * channels
        * (bits / 8) <= u32::MAX
}

/// A RIFF/WAVE header declaring `size` bytes after its size field.
pub open spec fn riff_header(size: u32) -> Seq<u8> {
    seq![82u8, 73, 70, 70] + le32_bytes(size) + seq![87u8, 65, 86, 69]
}

/// A 16-byte `fmt ` chunk.
pub open spec fn fmt_chunk(tag: u16, channels: u16, rate: u32, byte_rate: u32, align: u16, bits: u16) -> Seq<u8> {
    seq![102u8, 109, 116, 32] + le32_bytes(16) + le16_bytes(tag) + le16_bytes(channels) + le32_bytes(rate)
        + le32_bytes(byte_rate) + le16_bytes(align) + le16_bytes(bits)
}

/// The header of a `data` chunk of `n` bytes.
pub open spec fn data_header(n: u32) -> Seq<u8> {
    seq![100u8, 97, 116, 97] + le32_bytes(n)
}

/// The WAV file holding `samples` (already encoded) in the given format: a
/// RIFF header, a 16-byte `fmt ` chunk and a `data` chunk.
pub open spec fn wav_bytes(format: SampleFormat, channels: u16, sample_rate: u32, samples: Seq<u8>) -> Seq<u8> {
    let (tag, bits) = tag_of(format);
    riff_header((((44 + samples.len()) % 0x1_0000_0000) - 8) as u32) + fmt_chunk(
        tag,
        channels,
        sample_rate,
        (sample_rate * channels * (bits / 8)) as u32,
        (channels * bits / 8) as u16,
        bits,
    ) + data_header((samples.len() % 0x1_0000_0000) as u32) + samples
}

fn format_tag(format: SampleFormat) -> (r: (u16, u16))
    ensures
        r == tag_of(format),
{
    match format {
        SampleFormat::F32 => (FORMAT_IEEE_FLOAT, 32),
        SampleFormat::I16 => (FORMAT_PCM, 16),
        SampleFormat::I24 => (FORMAT_PCM, 24),
        SampleFormat::I32 => (FORMAT_PCM, 32),
        SampleFormat::U8 => (FORMAT_PCM, 8),
    }
}

fn push_riff_header(out: &mut Vec<u8>, size: u32)
    ensures
        final(out)@ == old(out)@ + riff_header(size),
{
    out.push(82);
    out.push(73);
    out.push(70);
    out.push(70);
    push_le32(out, size);
    out.push(87);
    out.push(65);
    out.push(86);
    out.push(69);
    assert(final(out)@ =~= old(out)@ + riff_header(size));
}

fn push_fmt_chunk(out: &mut Vec<u8>, tag: u16, channels: u16, rate: u32, byte_rate: u32, align: u16, bits: u16)
    ensures
        final(out)@ == old(out)@ + fmt_chunk(tag, channels, rate, byte_rate, align, bits),
{
    out.push(102);
    out.push(109);
    out.push(116);
    out.push(32);
    push_le32(out, 16);
    push_le16(out, tag);
    push_le16(out, channels);
    push_le32(out, rate);
    push_le32(out, byte_rate);
    push_le16(out, align);
    push_le16(out, bits);
    assert(final(out)@ =~= old(out)@ + fmt_chunk(tag, channels, rate, byte_rate, align, bits));
}

fn push_data_header(out: &mut Vec<u8>, n: u32)
    ensures
        final(out)@ == old(out)@ + data_header(n),
{
    out.push(100);
    out.push(97);
    out.push(116);
    out.push(97);
    push_le32(out, n);
    assert(final(out)@ =~= old(out)@ + data_header(n));
}

/// Writes a WAV file around already encoded sample bytes.
pub fn encode_wav(format: SampleFormat, channels: u16, sample_rate: u32, samples: &[u8]) -> (r: Vec<u8>)
    requires
        samples@.len() <= isize::MAX,
        wav_header_fits(format, channels, sample_rate),
        (44 + samples@.len()) % 0x1_0000_0000 >= 8,
    ensures
        r@ == wav_bytes(format, channels, sample_rate, samples@),
{
    let (format_tag, bits_per_sample) = format_tag(format);
    let rc: u32 = sample_rate * channels as u32;
    let byte_rate: u32 = rc * (bits_per_sample as u32 / 8);
    let cb: u16 = channels * bits_per_sample;
    let block_align: u16 = cb / 8;
    let total: u64 = 44 + samples.len() as u64;
    let riff_size: u32 = ((total % 0x1_0000_0000) as u32) - 8;
    let data_size: u32 = ((samples.len() as u64) % 0x1_0000_0000) as u32;
    let mut out: Vec<u8> = Vec::new();
    push_riff_header(&mut out, riff_size);
    push_fmt_chunk(&mut out, format_tag, channels, sample_rate, byte_rate, block_align, bits_per_sample);
    push_data_header(&mut out, data_size);
    push_all(&mut out, samples);
    proof {
        assert(Seq::<u8>::empty() + riff_header(riff_size) =~= riff_header(riff_size));
    }
    out
}

/// The fields of a `fmt ` chunk as it is written.
proof fn lemma_fmt_chunk_fields(tag: u16, channels: u16, rate: u32, byte_rate: u32, align: u16, bits: u16)
    ensures
        ({
            let b = fmt_chunk(tag, channels, rate, byte_rate, align, bits);
            &&& b.len() == 24
            &&& id_at(b, 0, 102, 109, 116, 32)
            &&& le32(b, 4) == 16
            &&& le16(b, 8) == tag
            &&& le16(b, 10) == channels
            &&& le32(b, 12) == rate
            &&& le16(b, 22) == bits
        }),
{
    let b = fmt_chunk(tag, channels, rate, byte_rate, align, bits);
    crate::bytes::lemma_le32_roundtrip(16);
    crate::bytes::lemma_le32_roundtrip(rate);
    crate::bytes::lemma_le16_roundtrip(tag);
    crate::bytes::lemma_le16_roundtrip(bits);
    crate::bytes::lemma_le16_roundtrip(channels);
    assert(b.subrange(4, 8) =~= le32_bytes(16));
    assert(b.subrange(8, 10) =~= le16_bytes(tag));
    assert(b.subrange(10, 12) =~= le16_bytes(channels));
    assert(b.subrange(12, 16) =~= le32_bytes(rate));
    assert(b.subrange(22, 24) =~= le16_bytes(bits));
}

/// The fields of a `data` chunk header as it is written.
proof fn lemma_data_header_fields(n: u32)
    ensures
        data_header(n).len() == 8,
        id_at(data_header(n), 0, 100, 97, 116, 97),
        le32(data_header(n), 4) == n,
{
    crate::bytes::lemma_le32_roundtrip(n);
    assert(data_header(n).subrange(4, 8) =~= le32_bytes(n));
}

/// The header fields of a file that `encode_wav` wrote.
#[verifier::rlimit(100)]
#[verifier::spinoff_prover]
proof fn lemma_wav_fields(format: SampleFormat, channels: u16, sample_rate: u32, samples: Seq<u8>)
    requires
        samples.len() + 44 < 0x1_0000_0000,
    ensures
        ({
            let w = wav_bytes(format, channels, sample_rate, samples);
            let (tag, bits) = tag_of(format);
            &&& w.len() == 44 + samples.len()
            &&& wav_signature_ok(w)
            &&& id_at(w, 12, 102, 109, 116, 32)
            &&& !id_at(w, 12, 100, 97, 116, 97)
            &&& id_at(w, 36, 100, 97, 116, 97)
            &&& !id_at(w, 36, 102, 109, 116, 32)
            &&& le32(w, 16) == 16
            &&& le16(w, 20) == tag
            &&& le16(w, 22) == channels
            &&& le32(w, 24) == sample_rate
            &&& le16(w, 34) == bits
            &&& le32(w, 40) == samples.len()
            &&& w.subrange(44, 44 + samples.len() as int) == samples
        }),
{
    let (tag, bits) = tag_of(format);
    let n = samples.len();
    let byte_rate = (sample_rate * channels * (bits / 8)) as u32;
    let align = (channels * bits / 8) as u16;
    let a = riff_header((((44 + n) % 0x1_0000_0000) - 8) as u32);
    let b = fmt_chunk(tag, channels, sample_rate, byte_rate, align, bits);
    let c = data_header((n % 0x1_0000_0000) as u32);
    let w = wav_bytes(format, channels, sample_rate, samples);
    lemma_fmt_chunk_fields(tag, channels, sample_rate, byte_rate, align, bits);
    lemma_data_header_fields((n % 0x1_0000_0000) as u32);
    assert(w == a + b + c + samples);
    assert(a.len() == 12);
    assert forall|k: int| 0 <= k < 12 implies w[k] == #[trigger] a[k] by {}
    assert forall|k: int| 0 <= k < 24 implies w[12 + k] == #[trigger] b[k] by {}
    assert forall|k: int| 0 <= k < 8 implies w[36 + k] == #[trigger] c[k] by {}
    assert(le32(w, 16) == le32(b, 4));
    assert(le16(w, 20) == le16(b, 8));
    assert(le16(w, 22) == le16(b, 10));
    assert(le32(w, 24) == le32(b, 12));
    assert(le16(w, 34) == le16(b, 22));
    assert(le32(w, 40) == le32(c, 4));
    assert(w.subrange(44, 44 + n as int) =~= samples);
}

/// Law: a WAV file that `encode_wav` wrote reads back with the format, channel
/// count and sample rate it was written with, and with its samples where they
/// were put.
pub proof fn lemma_wav_roundtrip(format: SampleFormat, channels: u16, sample_rate: u32, samples: Seq<u8>)
    requires
        samples.len() + 44 < 0x1_0000_0000,
    ensures
        ({
            let w = wav_bytes(format, channels, sample_rate, samples);
            &&& wav_layout(w) matches Ok(l)
            &&& l.fmt == FmtInfo {
                format: format,
                channels: channels,
                sample_rate: sample_rate,
                bits_per_sample: tag_of(format).1,
            }
            &&& l.data.offset == 44
            &&& l.data.len == samples.len()
            &&& w.subrange(44, 44 + samples.len() as int) == samples
            &&& l.data.channels == channels
            &&& l.data.bits_per_sample == format_bits(format)
            &&& l.data.is_float == (format == SampleFormat::F32)
            &&& l.zero_channel_data == (channels == 0)
        }),
{
    lemma_wav_fields(format, channels, sample_rate, samples);
    let (tag, bits) = tag_of(format);
    let n = samples.len();
    let w = wav_bytes(format, channels, sample_rate, samples);
    assert(format_of(tag, bits) == Some(format));
    let s0 = WalkState { fmt: None, data: None, zero_channel_data: false };
    let info = FmtInfo { format: format, channels: channels, sample_rate: sample_rate, bits_per_sample: bits };
    let s1 = WalkState { fmt: Some(info), ..s0 };
    assert(wav_walk(w, 12, s0) == wav_walk(w, 36, s1));
    let d = DataInfo {
        offset: 44,
        len: n as usize,
        channels: channels,
        bits_per_sample: bits,
        is_float: format == SampleFormat::F32,
    };
    let s2 = WalkState { data: Some(d), zero_channel_data: channels == 0, ..s1 };
    assert(wav_walk(w, 36, s1) == wav_walk(w, (44 + n + n % 2) as int, s2));
    assert(wav_walk(w, (44 + n + n % 2) as int, s2) == Ok::<WalkState, WavError>(s2));
}

/// The integer value of one sample of `bits` bits stored little-endian at
/// `pos`: an unsigned byte for 8 bits, a two's complement value otherwise.
pub open spec fn sample_int(s: Seq<u8>, pos: int, bits: u16) -> int {
    if bits == 8 {
        s[pos] as int
    } else if bits == 16 {
        let v = le16(s, pos);
        if v >= 0x8000 {
            v - 0x1_0000
        } else {
            v
        }
    } else if bits == 24 {
        let v = s[pos] as int + s[pos + 1] as int * 256 + s[pos + 2] as int * 65536;
        if v >= 0x80_0000 {
            v - 0x100_0000
        } else {
            v
        }
    } else {
        let v = le32(s, pos);
        if v >= 0x8000_0000 {
            v - 0x1_0000_0000
        } else {
            v
        }
    }
}

/// Whether `bits` is a bit depth whose samples can be read.
pub open spec fn supported_bits(bits: u16) -> bool {
    bits == 8 || bits == 16 || bits == 24 || bits == 32
}

/// Reads the integer value of one sample; `None` for an unsupported depth.
pub fn decode_sample_int(s: &[u8], pos: usize, bits: u16) -> (r: Option<i32>)
    requires
        supported_bits(bits) ==> pos + bits / 8 <= s.len(),
    ensures
        r matches Some(v) ==> supported_bits(bits) && v == sample_int(s@, pos as int, bits),
        r is None ==> !supported_bits(bits),
{
    if bits == 8 {
        Some(s[pos] as i32)
    } else if bits == 16 {
        let v = read_le16(s, pos);
        Some(if v >= 0x8000 { v as i32 - 0x1_0000 } else { v as i32 })
    } else if bits == 24 {
        let b0 = s[pos];
        let b1 = s[pos + 1];
        let b2 = s[pos + 2];
        let val: i32 = ((b2 as i32) << 16) | ((b1 as i32) << 8) | (b0 as i32);
        let val: i32 = if val & 0x800000 != 0 {
            val | !0xFFFFFF
        } else {
            val
        };
        assert(val == (if b0 as int + b1 as int * 256 + b2 as int * 65536 >= 0x80_0000 {
            b0 as int + b1 as int * 256 + b2 as int * 65536 - 0x100_0000
        } else {
            b0 as int + b1 as int * 256 + b2 as int * 65536
        })) by (bit_vector)
            requires
                val == (if ((b2 as i32) << 16 | (b1 as i32) << 8 | (b0 as i32)) & 0x800000 != 0 {
                    ((b2 as i32) << 16 | (b1 as i32) << 8 | (b0 as i32)) | !0xFFFFFFi32
                } else {
                    (b2 as i32) << 16 | (b1 as i32) << 8 | (b0 as i32)
                }),
        ;
        Some(val)
    } else if bits == 32 {
        let v = read_le32(s, pos);
        Some(if v >= 0x8000_0000 { (v - 0x8000_0000) as i32 - 0x4000_0000 - 0x4000_0000 } else { v as i32 })
    } else {
        None
    }
}

/// The little-endian bytes of a sample value of `bits` bits, taken modulo
/// 2^bits.
pub open spec fn sample_bytes(v: int, bits: u16) -> Seq<u8> {
    let m = if bits == 8 {
        0x100int
    } else if bits == 16 {
        0x1_0000int
    } else if bits == 24 {
        0x100_0000int
    } else {
        0x1_0000_0000int
    };
    let u = v % m;
    Seq::new((bits / 8) as nat, |i: int| ((u / pow256(i)) % 256) as u8)
}

/// 256 to the power `i`, for `i` up to 4.
pub open spec fn pow256(i: int) -> int {
    if i <= 0 {
        1
    } else if i == 1 {
        256
    } else if i == 2 {
        65536
    } else if i == 3 {
        16777216
    } else {
        0x1_0000_0000
    }
}

/// Whether `v` is a value that a sample of `bits` bits holds.
pub open spec fn sample_in_range(v: int, bits: u16) -> bool {
    if bits == 8 {
        0 <= v < 256
    } else if bits == 16 {
        -0x8000 <= v < 0x8000
    } else if bits == 24 {
        -0x80_0000 <= v < 0x80_0000
    } else {
        -0x8000_0000 <= v < 0x8000_0000
    }
}

/// Appends the little-endian bytes of one sample value.
#[verifier::rlimit(60)]
#[verifier::spinoff_prover]
pub fn encode_sample_int(out: &mut Vec<u8>, v: i32, bits: u16)
    requires
        supported_bits(bits),
    ensures
        final(out)@ == old(out)@ + sample_bytes(v as int, bits),
{
    let m: i64 = if bits == 8 {
        0x100
    } else if bits == 16 {
        0x1_0000
    } else if bits == 24 {
        0x100_0000
    } else {
        0x1_0000_0000
    };
    let r: i64 = v as i64 % m;
    let u: i64 = if r < 0 { r + m } else { r };
    assert(u == (v as int) % (m as int));
    let n = bits / 8;
    let mut i: u16 = 0;
    let mut q: i64 = u;
    let ghost start = out@;
    while i < n
        invariant
            n == bits / 8,
            supported_bits(bits),
            0 <= i <= n,
            0 <= u < 0x1_0000_0000,
            q == (u as int) / pow256(i as int),
            out@ == start + Seq::new(i as nat, |k: int| (((u as int) / pow256(k)) % 256) as u8),
        decreases n - i,
    {
        out.push((q % 256) as u8);
        proof {
            assert(pow256(i + 1) == pow256(i as int) * 256);
            vstd::arithmetic::div_mod::lemma_div_denominator(u as int, pow256(i as int), 256);
            assert((q as int) / 256 == (u as int) / pow256(i + 1));
        }
        q = q / 256;
        i = i + 1;
        assert(out@ =~= start + Seq::new(i as nat, |k: int| (((u as int) / pow256(k)) % 256) as u8));
    }
    assert(sample_bytes(v as int, bits) =~= Seq::new(n as nat, |k: int| (((u as int) / pow256(k)) % 256) as u8));
}

/// Law: a sample value in range, written and read back, is unchanged.
pub proof fn lemma_sample_roundtrip(v: int, bits: u16)
    requires
        supported_bits(bits),
        sample_in_range(v, bits),
    ensures
        sample_int(sample_bytes(v, bits), 0, bits) == v,
{
    let b = sample_bytes(v, bits);
    if bits == 8 {
        assert(b[0] as int == v % 256);
    } else if bits == 16 {
        let u = v % 0x1_0000;
        assert(b[0] as int == u % 256);
        assert(b[1] as int == (u / 256) % 256);
        assert(u == u % 256 + ((u / 256) % 256) * 256) by (nonlinear_arith)
            requires
                0 <= u < 0x1_0000,
        ;
    } else if bits == 24 {
        let u = v % 0x100_0000;
        assert(b[0] as int == u % 256);
        assert(b[1] as int == (u / 256) % 256);
        assert(b[2] as int == (u / 65536) % 256);
        assert(u == u % 256 + ((u / 256) % 256) * 256 + ((u / 65536) % 256) * 65536) by (nonlinear_arith)
            requires
                0 <= u < 0x100_0000,
        ;
    } else {
        let u = v % 0x1_0000_0000;
        assert(b[0] as int == u % 256);
        assert(b[1] as int == (u / 256) % 256);
        assert(b[2] as int == (u / 65536) % 256);
        assert(b[3] as int == (u / 16777216) % 256);
        assert(u == u % 256 + ((u / 256) % 256) * 256 + ((u / 65536) % 256) * 65536 + ((u / 16777216)
            % 256) * 16777216) by (nonlinear_arith)
            requires
                0 <= u < 0x1_0000_0000,
        ;
    }
}


/// Bit depth written for a sample format.
pub fn get_bits_per_sample(format: SampleFormat) -> (bits: u16)
    ensures
        bits == format_bits(format),
{
    match format {
        SampleFormat::U8 => 8,
        SampleFormat::I16 => 16,
        SampleFormat::I24 => 24,
        SampleFormat::I32 | SampleFormat::F32 => 32,
    }
}

/// Whether byte `k` of `part` is byte `k * n + c` of `data`, which exists.
pub open spec fn channel_byte(part: Seq<u8>, data: Seq<u8>, n: int, c: int, k: int) -> bool {
    k * n + c < data.len() && part[k] == data[k * n + c]
}

/// Whether `part` holds the bytes of channel `c` of interleaved data with `n`
/// channels: the bytes at `c`, `c + n`, `c + 2n`, ..., as many as lie in it.
pub open spec fn is_channel_of(part: Seq<u8>, data: Seq<u8>, n: int, c: int) -> bool {
    &&& forall|k: int| 0 <= k < part.len() ==> #[trigger] channel_byte(part, data, n, c, k)
    &&& part.len() * n + c >= data.len()
}

/// Pushing the byte at `idx`, the next position of channel `c`, keeps a prefix
/// of that channel a prefix of it.
proof fn lemma_channel_push(before: Seq<u8>, after: Seq<u8>, data: Seq<u8>, n: int, c: int, idx: int)
    requires
        0 <= idx < data.len(),
        idx == before.len() * n + c,
        after == before.push(data[idx]),
        forall|k: int| 0 <= k < before.len() ==> #[trigger] channel_byte(before, data, n, c, k),
    ensures
        after.len() * n + c == idx + n,
        forall|k: int| 0 <= k < after.len() ==> #[trigger] channel_byte(after, data, n, c, k),
{
    let m = before.len();
    assert((m + 1) * n + c == idx + n) by (nonlinear_arith)
        requires
            idx == m * n + c,
    ;
    assert forall|k: int| 0 <= k < after.len() implies #[trigger] channel_byte(after, data, n, c, k) by {
        if k < m {
            assert(channel_byte(before, data, n, c, k));
            assert(after[k] == before[k]);
        } else {
            assert(k == m);
        }
    }
}

/// The bytes of one channel of interleaved data.
fn channel_of(data: &[u8], n: usize, c: usize) -> (part: Vec<u8>)
    requires
        c < n,
    ensures
        is_channel_of(part@, data@, n as int, c as int),
{
    let len = data.len();
    let mut part: Vec<u8> = Vec::new();
    if c >= len {
        return part;
    }
    let mut idx: usize = c;
    assert(part@.len() * n + c == c) by (nonlinear_arith)
        requires
            part@.len() == 0,
    ;
    loop
        invariant_except_break
            c < n,
            len == data@.len(),
            idx < len,
            idx == part@.len() * n + c,
            forall|k: int| 0 <= k < part@.len() ==> #[trigger] channel_byte(
                part@,
                data@,
                n as int,
                c as int,
                k,
            ),
        ensures
            is_channel_of(part@, data@, n as int, c as int),
        decreases len - idx,
    {
        let ghost before = part@;
        part.push(data[idx]);
        proof {
            lemma_channel_push(before, part@, data@, n as int, c as int, idx as int);
        }
        if len - idx <= n {
            break;
        }
        idx = idx + n;
    }
    part
}

/// Whether byte `i` of interleaved data with `n` channels sits in channel
/// `i % n` of `parts`, at position `i / n`.
pub open spec fn deinterleaved_at(parts: Seq<Vec<u8>>, data: Seq<u8>, n: int, i: int) -> bool {
    i / n < parts[i % n]@.len() && parts[i % n]@[i / n] == data[i]
}

/// Splits interleaved bytes into one vector per channel: byte `i` goes to
/// channel `i % num_channels`, at position `i / num_channels`.
pub fn split_channels(pcm_data: &[u8], num_channels: usize) -> (r: Vec<Vec<u8>>)
    requires
        num_channels > 0,
    ensures
        r@.len() == num_channels,
        forall|c: int| 0 <= c < num_channels ==> is_channel_of(
            #[trigger] r@[c]@,
            pcm_data@,
            num_channels as int,
            c,
        ),
        forall|i: int|
            0 <= i < pcm_data@.len() ==> #[trigger] deinterleaved_at(r@, pcm_data@, num_channels as int, i),
{
    let mut out: Vec<Vec<u8>> = Vec::new();
    let mut c: usize = 0;
    while c < num_channels
        invariant
            0 <= c <= num_channels,
            out@.len() == c,
            forall|k: int| 0 <= k < c ==> is_channel_of(
                #[trigger] out@[k]@,
                pcm_data@,
                num_channels as int,
                k,
            ),
        decreases num_channels - c,
    {
        let part = channel_of(pcm_data, num_channels, c);
        out.push(part);
        c = c + 1;
    }
    proof {
        let n = num_channels as int;
        assert forall|i: int| 0 <= i < pcm_data@.len() implies #[trigger] deinterleaved_at(
            out@,
            pcm_data@,
            n,
            i,
        ) by {
            let q = i / n;
            let m = i % n;
            assert(i == q * n + m && 0 <= m < n && q >= 0) by (nonlinear_arith)
                requires
                    n > 0,
                    i >= 0,
                    q == i / n,
                    m == i % n,
            ;
            assert(is_channel_of(out@[m]@, pcm_data@, n, m));
            let len_m = out@[m]@.len();
            if q >= len_m {
                assert(len_m * n + m <= q * n + m) by (nonlinear_arith)
                    requires
                        q >= len_m,
                        n > 0,
                ;
            }
            assert(channel_byte(out@[m]@, pcm_data@, n, m, q));
        }
    }
    out
}

} // verus!
