use smdbc::aiff::AifCodec;
use smdbc::formats::{get_codec, get_encoder, CodecKind, Mp3Codec};
use smdbc::bytes::{push_le16, push_le32, read_le16, read_le32};
use smdbc::codec::{
    decode_sample_int, encode_sample_int, encode_wav, get_bits_per_sample, parse_wav,
    split_channels, validate_file_format, SampleFormat, WavError,
};
use smdbc::fingerprint::{
    approximate_lcs, compute_hash, decode_chromaprint, extract_features, longest_common_subsequence,
};
use smdbc::landmarks::{generate_hashes, AudioHash, ConstellationPoint};
use smdbc::riff::{
    embed_metadata_chunks, embed_would_panic, extract_metadata_chunks, parse_text_tags,
    write_chunk, MetadataChunk, MetadataError,
};

#[test]
fn little_endian_fields_read_back() {
    let mut v = Vec::new();
    push_le16(&mut v, 0xBEEF);
    push_le32(&mut v, 0x0102_0304);
    assert_eq!(v, vec![0xEF, 0xBE, 0x04, 0x03, 0x02, 0x01]);
    assert_eq!(read_le16(&v, 0), 0xBEEF);
    assert_eq!(read_le32(&v, 2), 0x0102_0304);
}

#[test]
fn wav_written_then_parsed() {
    let samples = [1u8, 0, 2, 0, 3, 0, 4, 0];
    let wav = encode_wav(SampleFormat::I16, 2, 44100, &samples);
    assert_eq!(wav.len(), 44 + samples.len());
    assert_eq!(&wav[0..4], b"RIFF");
    assert_eq!(&wav[8..12], b"WAVE");
    let layout = parse_wav(&wav).unwrap();
    assert_eq!(layout.fmt.format, SampleFormat::I16);
    assert_eq!(layout.fmt.channels, 2);
    assert_eq!(layout.fmt.sample_rate, 44100);
    assert_eq!(layout.fmt.bits_per_sample, 16);
    assert_eq!(layout.data.offset, 44);
    assert_eq!(layout.data.len, samples.len());
    assert_eq!(&wav[44..], &samples[..]);
    assert!(!layout.zero_channel_data);
}

#[test]
fn float_wav_written_then_parsed() {
    let wav = encode_wav(SampleFormat::F32, 1, 48000, &[0, 0, 128, 63]);
    let layout = parse_wav(&wav).unwrap();
    assert_eq!(layout.fmt.format, SampleFormat::F32);
    assert!(layout.data.is_float);
    assert_eq!(read_le32(&wav, 28), 48000 * 4);
}

#[test]
fn file_format_errors() {
    assert_eq!(validate_file_format(b"RIFF"), Err(WavError::TooSmall));
    assert_eq!(validate_file_format(b"RIFX\0\0\0\0WAVE"), Err(WavError::NotWav));
    assert_eq!(validate_file_format(b"RIFF\0\0\0\0WAVE"), Ok(()));
    assert_eq!(parse_wav(b"RIFF\0\0\0\0WAVE").err(), Some(WavError::MissingChunk));
    assert_eq!(parse_wav(b"RIFF\0\0\0\0WAVEfmt ").err(), Some(WavError::UnexpectedEof));
}

#[test]
fn unsupported_wav_format() {
    let mut wav = encode_wav(SampleFormat::I16, 1, 8000, &[0, 0]);
    wav[20] = 2;
    assert_eq!(parse_wav(&wav).err(), Some(WavError::UnsupportedFormat(2, 16)));
}

#[test]
fn samples_encoded_and_decoded() {
    assert_eq!(decode_sample_int(&[0xFF, 0x7F], 0, 16), Some(32767));
    assert_eq!(decode_sample_int(&[0x00, 0x80], 0, 16), Some(-32768));
    assert_eq!(decode_sample_int(&[0x00, 0x00, 0x80], 0, 24), Some(-8388608));
    assert_eq!(decode_sample_int(&[0x80], 0, 8), Some(128));
    assert_eq!(decode_sample_int(&[0x01, 0x02], 0, 12), None);
    let mut out = Vec::new();
    encode_sample_int(&mut out, -2, 16);
    assert_eq!(out, vec![0xFE, 0xFF]);
    let mut out = Vec::new();
    encode_sample_int(&mut out, -2, 24);
    assert_eq!(decode_sample_int(&out, 0, 24), Some(-2));
    assert_eq!(get_bits_per_sample(SampleFormat::I24), 24);
    assert_eq!(SampleFormat::F32.bits_per_sample(), 32);
}

#[test]
fn channels_split_from_interleaved_bytes() {
    let parts = split_channels(&[1, 2, 3, 4, 5], 2);
    assert_eq!(parts, vec![vec![1, 3, 5], vec![2, 4]]);
    let parts = split_channels(&[], 3);
    assert_eq!(parts, vec![Vec::<u8>::new(), Vec::new(), Vec::new()]);
}

#[test]
fn text_tags_of_lines() {
    let tags = parse_text_tags("a=1\nb = 2\n=3\nnothing", false);
    assert_eq!(
        tags,
        vec![
            ("a".to_string(), "1".to_string()),
            ("b".to_string(), "2".to_string()),
            ("".to_string(), "3".to_string())
        ]
    );
    let named = parse_text_tags("a=1\n=3", true);
    assert_eq!(named, vec![("a".to_string(), "1".to_string())]);
}

#[test]
fn metadata_chunk_accessors() {
    let tag = MetadataChunk::new_text_tag("Artist", "Someone");
    assert_eq!(tag.id(), "Artist");
    assert_eq!(tag.data(), b"Someone");
    assert_eq!(tag.as_text_tags(), vec![("Artist".to_string(), "Someone".to_string())]);
    let pic = MetadataChunk::new_picture("image/png", "Cover", &[1, 2, 3]);
    assert_eq!(pic.id(), "Picture");
    assert_eq!(pic.data(), &[1, 2, 3]);
    assert!(matches!(pic.to_format("wav"), Some(MetadataChunk::Picture { .. })));
    let id3 = MetadataChunk::ID3(vec![9]);
    assert!(matches!(id3.to_format("flac"), Some(MetadataChunk::IXml(ref s)) if s.is_empty()));
    assert!(id3.to_format("mp3").is_none());
    let xml = MetadataChunk::IXml("k=v".to_string());
    assert!(matches!(xml.to_format("mp3"), Some(MetadataChunk::ID3(ref d)) if d.is_empty()));
    assert_eq!(MetadataChunk::Bext(vec![]).id(), "bext");
}

#[test]
fn chunk_written_with_pad_byte() {
    let mut out = Vec::new();
    write_chunk(&mut out, b"abcd", &[7, 8, 9]);
    assert_eq!(out, vec![b'a', b'b', b'c', b'd', 3, 0, 0, 0, 7, 8, 9, 0]);
}

#[test]
fn metadata_embedded_then_extracted() {
    let wav = encode_wav(SampleFormat::I16, 2, 44100, &[0, 0, 0, 0]);
    let chunks = vec![
        MetadataChunk::Bext(vec![1, 2, 3]),
        MetadataChunk::new_text_tag("k", "v"),
    ];
    let out = embed_metadata_chunks(&wav, &chunks).unwrap();
    assert_eq!(read_le32(&out, 4) as usize, out.len() - 8);
    let back = extract_metadata_chunks(&out).unwrap();
    assert_eq!(back.len(), 3);
    assert!(matches!(&back[0], MetadataChunk::Bext(d) if d == &vec![1, 2, 3]));
    assert!(matches!(&back[1], MetadataChunk::TextTag { key, value } if key == "k" && value == "v"));
    assert!(matches!(&back[2], MetadataChunk::IXml(x) if x == "k=v\n"));
}

#[test]
fn metadata_errors() {
    assert_eq!(extract_metadata_chunks(b"RIFF").err(), Some(MetadataError::UnexpectedEof));
    assert_eq!(
        extract_metadata_chunks(b"RIFX\0\0\0\0WAVE").err(),
        Some(MetadataError::NotAWav)
    );
    let no_fmt = b"RIFF\x10\0\0\0WAVEdata\x04\0\0\0\0\0\0\0";
    assert_eq!(embed_metadata_chunks(no_fmt, &[]).err(), Some(MetadataError::MissingFmt));
}

#[test]
fn embedding_panics_only_on_unpatchable_mono_fmt() {
    let stereo = encode_wav(SampleFormat::I16, 2, 44100, &[0, 0, 0, 0]);
    assert!(!embed_would_panic(&stereo, &[]));
    let mono = encode_wav(SampleFormat::I16, 1, 44100, &[0, 0]);
    assert!(!embed_would_panic(&mono, &[]));
    let out = embed_metadata_chunks(&mono, &[]).unwrap();
    assert_eq!(read_le16(&out, 22), 1);
    let mut short_fmt = b"RIFF\x14\0\0\0WAVEfmt \x08\0\0\0".to_vec();
    short_fmt.extend_from_slice(&[1, 0, 1, 0, 0x44, 0xAC, 0, 0]);
    assert_eq!(short_fmt.len(), 28);
    assert!(embed_would_panic(&short_fmt, &[]));
    assert!(!embed_would_panic(b"RIFF", &[]));
}

#[test]
fn fingerprint_features() {
    assert_eq!(extract_features(&[0x0001_0002, 0x0003_0004]), vec![1]);
    let f = extract_features(&[0x0000_00AA, 0x0000_0000, 0x0000_0000, 0x0000_00BB]);
    assert_eq!(f, vec![0xAA, 0, 0, 0xBBAA]);
    assert!(extract_features(&[5]).is_empty());
}

#[test]
fn common_subsequences() {
    assert_eq!(longest_common_subsequence(&[1, 2, 3, 4], &[2, 4, 3]), 2);
    assert_eq!(longest_common_subsequence(&[2, 4, 3], &[1, 2, 3, 4]), 2);
    assert_eq!(longest_common_subsequence(&[], &[1]), 0);
    assert_eq!(approximate_lcs(&[1, 2], &[1, 2, 3, 1, 2]), 3);
    assert_eq!(approximate_lcs(&[1, 2, 3, 1, 2], &[1, 2]), 3);
}

#[test]
fn peak_hashes() {
    assert_eq!(compute_hash(100, 10, 150, 30), (50u64 << 32) | 20);
    assert_eq!(compute_hash(150, 30, 100, 10), (65486u64 << 32) | 65516);
}

#[test]
fn chromaprint_decoding() {
    assert_eq!(decode_chromaprint("AQAAAAIAAAA=").unwrap(), vec![1, 2]);
    assert_eq!(decode_chromaprint("PCM:abc"), Err("Not a Chromaprint fingerprint"));
    assert_eq!(decode_chromaprint("@@@"), Err("Failed to decode fingerprint"));
}

#[test]
fn aiff_written_with_header_fields() {
    let out = AifCodec.encode(SampleFormat::I16, 1, 2, 22050, &[1, 2, 3, 4]);
    let mut expected: Vec<u8> = Vec::new();
    expected.extend_from_slice(b"FORM");
    expected.extend_from_slice(&[0, 0, 0, 50]);
    expected.extend_from_slice(b"AIFFCOMM");
    expected.extend_from_slice(&[0, 0, 0, 18, 0, 1, 0, 0, 0, 2, 0, 16]);
    expected.extend_from_slice(&[0x40, 0x0E, 0x00, 0x0B, 0x11, 0, 0, 0, 0, 0]);
    expected.extend_from_slice(b"SSND");
    expected.extend_from_slice(&[0, 0, 0, 12, 0, 0, 0, 0, 0, 0, 0, 0, 1, 2, 3, 4]);
    assert_eq!(out, expected);
}

#[test]
fn aiff_common_rates_from_table() {
    let out = AifCodec.encode(SampleFormat::I24, 2, 0, 44100, &[]);
    assert_eq!(out.len(), 54);
    assert_eq!(&out[20..22], &[0, 2]);
    assert_eq!(&out[26..28], &[0, 24]);
    assert_eq!(&out[28..38], &[0x40, 0x0E, 0xAC, 0x44, 0, 0, 0, 0, 0, 0]);
    let out = AifCodec.encode(SampleFormat::F32, 2, 0, 96000, &[]);
    assert_eq!(&out[28..38], &[0x40, 0x0F, 0xBB, 0x80, 0, 0, 0, 0, 0, 0]);
    let out = AifCodec.encode(SampleFormat::U8, 1, 0, 0, &[]);
    assert_eq!(&out[28..38], &[0u8; 10]);
    let out = AifCodec.encode(SampleFormat::U8, 1, 0, 1, &[]);
    assert_eq!(&out[28..38], &[0x40, 0, 0, 0, 0, 0, 0, 0, 0, 0]);
}

#[test]
fn landmark_hashes_from_target_zones() {
    let p = |t: u32, f: u16| ConstellationPoint { time_idx: t, freq_idx: f };
    let h = |a: u16, b: u16, d: u16| AudioHash { anchor_freq: a, target_freq: b, delta_time: d };
    let points = [p(0, 100), p(2, 110), p(5, 100), p(20, 0)];
    let (index, list) = generate_hashes(&points);
    assert_eq!(
        list,
        vec![(h(100, 110, 2), 0), (h(100, 100, 5), 0), (h(110, 100, 3), 2), (h(110, 100, 3), 2)]
    );
    assert_eq!(
        index,
        vec![(h(100, 110, 2), vec![0]), (h(100, 100, 5), vec![0]), (h(110, 100, 3), vec![2, 2])]
    );
    let (index, list) = generate_hashes(&[p(7, 1)]);
    assert!(index.is_empty() && list.is_empty());
    let (_, list) = generate_hashes(&[p(0, 0), p(1, 31), p(1, 30)]);
    assert_eq!(list, vec![(h(0, 30, 1), 0)]);
}

#[test]
fn codecs_chosen_by_extension() {
    assert_eq!(get_codec("/a/b.wav"), Ok(CodecKind::Wav));
    assert_eq!(get_codec("/a/b.mp3"), Ok(CodecKind::Mp3));
    assert_eq!(get_codec("/a/b.aif"), Ok(CodecKind::Aif));
    assert_eq!(get_codec("/a/b.ogg"), Err("No codec found for extension: ogg".to_string()));
    assert_eq!(get_codec("/a/b"), Err("Invalid file extension".to_string()));
    assert_eq!(get_encoder("x.flac"), Ok(CodecKind::Flac));
    assert_eq!(get_encoder("x.mp3"), Err("No Encoder found for extension: mp3".to_string()));
}

#[test]
fn mp3_needs_id3_tag() {
    assert!(Mp3Codec.validate_file_format(b"ID3\x04\0").is_ok());
    assert_eq!(
        Mp3Codec.validate_file_format(b"ID"),
        Err("Invalid MP3 file: Missing ID3 tag".to_string())
    );
    assert!(Mp3Codec.validate_file_format(b"RIFF").is_err());
}

#[test]
fn bext_chunk_read_back_alone() {
    let wav = encode_wav(SampleFormat::I16, 2, 44100, &[1, 2, 3, 4]);
    let out = embed_metadata_chunks(&wav, &[MetadataChunk::Bext(vec![5, 6, 7])]).unwrap();
    let back = extract_metadata_chunks(&out).unwrap();
    assert_eq!(back.len(), 1);
    assert!(matches!(&back[0], MetadataChunk::Bext(d) if d == &vec![5, 6, 7]));
}

#[test]
fn metadata_error_messages() {
    assert_eq!(MetadataError::NotAWav.message(), "Not a WAV file");
    assert_eq!(MetadataError::MissingFmt.message(), "WAV file missing fmt chunk");
    assert_eq!(MetadataError::UnexpectedEof.message(), "failed to fill whole buffer");
}
