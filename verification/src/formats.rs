use vstd::prelude::*;

verus! {

/// The kinds of audio file that have a codec.
#[derive(Debug, Clone, Copy, PartialEq, Eq, Structural)]
pub enum CodecKind {
    Wav,
    Flac,
    Aif,
    Mp3,
}

/// The codec of a file extension, where there is one; `mp3` only where MP3
/// files are read as well as written.
pub open spec fn codec_of_extension(ext: Seq<char>, with_mp3: bool) -> Option<CodecKind> {
    if ext == "wav"@ {
        Some(CodecKind::Wav)
    } else if ext == "flac"@ {
        Some(CodecKind::Flac)
    } else if ext == "aif"@ {
        Some(CodecKind::Aif)
    } else if with_mp3 && ext == "mp3"@ {
        Some(CodecKind::Mp3)
    } else {
        None
    }
}

/// The outcome of choosing a codec for a path: an error where the path has
/// no extension, the codec of its extension, or an error that names the
/// extension after `unknown`.
pub open spec fn codec_choice(path: Seq<char>, with_mp3: bool, unknown: Seq<char>) -> Result<CodecKind, Seq<char>> {
    match crate::records::path_extension(path) {
        None => Err("Invalid file extension"@),
        Some(e) => match codec_of_extension(e, with_mp3) {
            Some(k) => Ok(k),
            None => Err(unknown + e),
        },
    }
}

fn choose_codec(file_path: &str, with_mp3: bool, unknown: &str) -> (r: Result<CodecKind, String>)
    ensures
        match (r, codec_choice(file_path@, with_mp3, unknown@)) {
            (Ok(a), Ok(b)) => a == b,
            (Err(a), Err(b)) => a@ == b,
            _ => false,
        },
{
    match crate::records::extension_of(file_path) {
        None => Err(String::from_str("Invalid file extension")),
        Some(ext) => {
            let e = ext.as_str();
            if crate::text::str_eq(e, "wav") {
                Ok(CodecKind::Wav)
            } else if crate::text::str_eq(e, "flac") {
                Ok(CodecKind::Flac)
            } else if crate::text::str_eq(e, "aif") {
                Ok(CodecKind::Aif)
            } else if with_mp3 && crate::text::str_eq(e, "mp3") {
                Ok(CodecKind::Mp3)
            } else {
                let mut v: Vec<char> = Vec::new();
                crate::text::append_chars(&mut v, unknown);
                crate::text::append_chars(&mut v, e);
                assert(v@ =~= unknown@ + ext@);
                Err(crate::text::string_from_chars(&v))
            }
        },
    }
}

/// The codec that reads and writes a file, by its extension: `wav`, `flac`,
/// `aif` or `mp3`.
pub fn get_codec(file_path: &str) -> (r: Result<CodecKind, String>)
    ensures
        match (r, codec_choice(file_path@, true, "No codec found for extension: "@)) {
            (Ok(a), Ok(b)) => a == b,
            (Err(a), Err(b)) => a@ == b,
            _ => false,
        },
{
    choose_codec(file_path, true, "No codec found for extension: ")
}

/// The encoder that writes a file, by its extension: `wav`, `flac` or `aif`.
pub fn get_encoder(file_path: &str) -> (r: Result<CodecKind, String>)
    ensures
        match (r, codec_choice(file_path@, false, "No Encoder found for extension: "@)) {
            (Ok(a), Ok(b)) => a == b,
            (Err(a), Err(b)) => a@ == b,
            _ => false,
        },
{
    choose_codec(file_path, false, "No Encoder found for extension: ")
}


/// Whether a file starts as an MP3 file with an ID3 tag: with the bytes
/// `ID3`.
pub open spec fn mp3_signature_ok(data: Seq<u8>) -> bool {
    data.len() >= 3 && data[0] == 73 && data[1] == 68 && data[2] == 51
}

/// Reader of MP3 files.
pub struct Mp3Codec;

impl Mp3Codec {
    /// Checks an MP3 file's signature: it must start with an ID3 tag.
    pub fn validate_file_format(&self, data: &[u8]) -> (r: Result<(), String>)
        ensures
            r is Ok <==> mp3_signature_ok(data@),
            r matches Err(m) ==> m@ == "Invalid MP3 file: Missing ID3 tag"@,
    {
        if data.len() < 3 || data[0] != 73 || data[1] != 68 || data[2] != 51 {
            return Err(String::from_str("Invalid MP3 file: Missing ID3 tag"));
        }
        Ok(())
    }
}

} // verus!
