use vstd::prelude::*;
use vstd::utf8::{decode_utf8, encode_utf8, encode_utf8_decode_utf8, encode_utf8_valid_utf8, valid_utf8};
use crate::bytes::{
    copy_range, le16, le16_bytes, le32, le32_bytes, push_all, push_le16, push_le32, read_le16,
    read_le32,
};
use crate::text::{
    find_between, find_char, replace_all, replace_seq, split_lines, str_chars, str_eq, string_from_chars, trim_range,
    trim_white,
};

verus! {

/// A metadata chunk of an audio file.
#[derive(Debug, Clone)]
pub enum MetadataChunk {
    Bext(Vec<u8>),
    IXml(String),
    Soundminer(Vec<u8>),
    ID3(Vec<u8>),
    APE(Vec<u8>),
    Picture { mime_type: String, description: String, data: Vec<u8> },
    TextTag { key: String, value: String },
    Unknown { id: String, data: Vec<u8> },
}

/// The mathematical content of a metadata chunk.
pub enum ChunkModel {
    Bext(Seq<u8>),
    IXml(Seq<char>),
    Soundminer(Seq<u8>),
    ID3(Seq<u8>),
    APE(Seq<u8>),
    Picture(Seq<char>, Seq<char>, Seq<u8>),
    TextTag(Seq<char>, Seq<char>),
    Unknown(Seq<char>, Seq<u8>),
}

impl View for MetadataChunk {
    type V = ChunkModel;

    open spec fn view(&self) -> ChunkModel {
        match self {
            MetadataChunk::Bext(d) => ChunkModel::Bext(d@),
            MetadataChunk::IXml(x) => ChunkModel::IXml(x@),
            MetadataChunk::Soundminer(d) => ChunkModel::Soundminer(d@),
            MetadataChunk::ID3(d) => ChunkModel::ID3(d@),
            MetadataChunk::APE(d) => ChunkModel::APE(d@),
            MetadataChunk::Picture { mime_type, description, data } => ChunkModel::Picture(
                mime_type@,
                description@,
                data@,
            ),
            MetadataChunk::TextTag { key, value } => ChunkModel::TextTag(key@, value@),
            MetadataChunk::Unknown { id, data } => ChunkModel::Unknown(id@, data@),
        }
    }
}

/// The chunks of a sequence, each by its content.
pub open spec fn chunks_view(cs: Seq<MetadataChunk>) -> Seq<ChunkModel> {
    cs.map_values(|c: MetadataChunk| c@)
}

/// The identifier under which a chunk is known.
pub open spec fn chunk_id(c: ChunkModel) -> Seq<char> {
    match c {
        ChunkModel::Bext(_) => "bext"@,
        ChunkModel::IXml(_) => "iXML"@,
        ChunkModel::Soundminer(_) => "SMED"@,
        ChunkModel::ID3(_) => "ID3"@,
        ChunkModel::APE(_) => "APE"@,
        ChunkModel::Picture(..) => "Picture"@,
        ChunkModel::TextTag(key, _) => key,
        ChunkModel::Unknown(id, _) => id,
    }
}

/// The payload bytes of a chunk: text is taken in its UTF-8 encoding.
pub open spec fn chunk_data(c: ChunkModel) -> Seq<u8> {
    match c {
        ChunkModel::Bext(d) => d,
        ChunkModel::IXml(x) => encode_utf8(x),
        ChunkModel::Soundminer(d) => d,
        ChunkModel::ID3(d) => d,
        ChunkModel::APE(d) => d,
        ChunkModel::Picture(_, _, d) => d,
        ChunkModel::TextTag(_, v) => encode_utf8(v),
        ChunkModel::Unknown(_, d) => d,
    }
}

/// The `key=value` pair that one line of text holds: the text before the
/// first `=` and the text after it, both trimmed.
pub open spec fn line_tag(line: Seq<char>) -> Option<(Seq<char>, Seq<char>)> {
    match find_char(line, '=') {
        Some(i) => if 0 <= i < line.len() {
            Some((trim_white(line.take(i)), trim_white(line.skip(i + 1))))
        } else {
            None
        },
        None => None,
    }
}

/// The `key=value` pairs of a list of lines; with `named_only`, pairs with an
/// empty key are left out.
pub open spec fn tags_of_lines(lines: Seq<Seq<char>>, named_only: bool) -> Seq<
    (Seq<char>, Seq<char>),
>
    decreases lines.len(),
{
    if lines.len() == 0 {
        seq![]
    } else {
        let rest = tags_of_lines(lines.drop_first(), named_only);
        match line_tag(lines[0]) {
            Some(t) => if named_only && t.0.len() == 0 {
                rest
            } else {
                seq![t] + rest
            },
            None => rest,
        }
    }
}

/// The `key=value` pairs of a text, line by line.
pub open spec fn text_tags(xml: Seq<char>, named_only: bool) -> Seq<(Seq<char>, Seq<char>)> {
    tags_of_lines(split_lines(xml), named_only)
}

/// Pairs of strings, by their characters.
pub open spec fn pairs_view(v: Seq<(String, String)>) -> Seq<(Seq<char>, Seq<char>)> {
    v.map_values(|p: (String, String)| (p.0@, p.1@))
}

/// The `key=value` pairs of a text, line by line.
pub fn parse_text_tags(xml: &str, named_only: bool) -> (r: Vec<(String, String)>)
    ensures
        pairs_view(r@) == text_tags(xml@, named_only),
{
    let v = str_chars(xml);
    let mut out: Vec<(String, String)> = Vec::new();
    let mut start: usize = 0;
    assert(v@.skip(0) =~= v@);
    assert(pairs_view(out@) =~= Seq::<(Seq<char>, Seq<char>)>::empty());
    assert(pairs_view(out@) + text_tags(v@, named_only) =~= text_tags(v@, named_only));
    loop
        invariant
            start <= v.len(),
            v@ == xml@,
            text_tags(v@, named_only) == pairs_view(out@) + tags_of_lines(
                split_lines(v@.skip(start as int)),
                named_only,
            ),
        decreases v.len() - start,
    {
        let ghost rest = v@.skip(start as int);
        let nl = find_between(&v, start, v.len(), '\n');
        let end = match nl {
            Some(i) => i,
            None => v.len(),
        };
        assert(v@.subrange(start as int, v.len() as int) =~= rest);
        let ghost line = v@.subrange(start as int, end as int);
        let ghost after: Seq<Seq<char>> = if end < v.len() {
            split_lines(v@.skip(end + 1))
        } else {
            seq![]
        };
        proof {
            if end < v.len() {
                assert(rest.take(end - start) =~= line);
                assert(rest.skip(end - start + 1) =~= v@.skip(end + 1));
                assert(split_lines(rest) == seq![line] + after);
            } else {
                assert(rest =~= line);
                assert(split_lines(rest) == seq![line]);
                assert(seq![line] + after =~= seq![line]);
            }
            assert((seq![line] + after).drop_first() =~= after);
            assert((seq![line] + after)[0] == line);
        }
        let eq = find_between(&v, start, end, '=');
        let ghost before_out = out@;
        match eq {
            Some(i) => {
                let k = trim_range(&v, start, i);
                let val = trim_range(&v, i + 1, end);
                proof {
                    assert(line.take(i - start) =~= v@.subrange(start as int, i as int));
                    assert(line.skip(i - start + 1) =~= v@.subrange(i + 1, end as int));
                }
                if !(named_only && k.len() == 0) {
                    let ks = string_from_chars(&k);
                    let vs = string_from_chars(&val);
                    out.push((ks, vs));
                    assert(pairs_view(out@) =~= pairs_view(before_out) + seq![(k@, val@)]);
                }
            },
            None => {},
        }
        proof {
            let lines = seq![line] + after;
            assert(lines.drop_first() =~= after);
            assert(lines[0] == line);
            assert(tags_of_lines(lines, named_only) == match line_tag(line) {
                Some(t) => if named_only && t.0.len() == 0 {
                    tags_of_lines(after, named_only)
                } else {
                    seq![t] + tags_of_lines(after, named_only)
                },
                None => tags_of_lines(after, named_only),
            });
            assert(pairs_view(before_out) + tags_of_lines(lines, named_only) =~= pairs_view(out@)
                + tags_of_lines(after, named_only));
        }
        if end >= v.len() {
            assert(after =~= Seq::<Seq<char>>::empty());
            assert(text_tags(v@, named_only) == pairs_view(out@)) by {
                assert(pairs_view(out@) + Seq::<(Seq<char>, Seq<char>)>::empty() =~= pairs_view(out@));
            }
            return out;
        }
        start = end + 1;
    }
}


/// The chunk that `to_format` gives for a target format.
pub open spec fn chunk_for_format(c: ChunkModel, format: Seq<char>) -> Option<ChunkModel> {
    match c {
        ChunkModel::IXml(_) => if format == "mp3"@ {
            Some(ChunkModel::ID3(seq![]))
        } else {
            None
        },
        ChunkModel::ID3(_) => if format == "wav"@ || format == "flac"@ {
            Some(ChunkModel::IXml(seq![]))
        } else {
            None
        },
        ChunkModel::Picture(m, d, p) => Some(ChunkModel::Picture(m, d, p)),
        _ => None,
    }
}

/// The text pairs a chunk holds: the lines of an iXML chunk, or the pair of a
/// text tag.
pub open spec fn chunk_text_tags(c: ChunkModel) -> Seq<(Seq<char>, Seq<char>)> {
    match c {
        ChunkModel::IXml(x) => text_tags(x, false),
        ChunkModel::TextTag(k, v) => seq![(k, v)],
        _ => seq![],
    }
}

/// A copy of a byte vector.
pub fn copy_bytes(d: &Vec<u8>) -> (r: Vec<u8>)
    ensures
        r@ == d@,
{
    crate::bytes::copy_range(d.as_slice(), 0, d.len())
}

impl MetadataChunk {
    /// The identifier under which this chunk is known.
    pub fn id(&self) -> (r: String)
        ensures
            r@ == chunk_id(self@),
    {
        match self {
            MetadataChunk::Bext(_) => "bext".to_owned(),
            MetadataChunk::IXml(_) => "iXML".to_owned(),
            MetadataChunk::Soundminer(_) => "SMED".to_owned(),
            MetadataChunk::ID3(_) => "ID3".to_owned(),
            MetadataChunk::APE(_) => "APE".to_owned(),
            MetadataChunk::Picture { .. } => "Picture".to_owned(),
            MetadataChunk::TextTag { key, .. } => key.clone(),
            MetadataChunk::Unknown { id, .. } => id.clone(),
        }
    }

    /// The payload bytes of this chunk.
    pub fn data(&self) -> (r: &[u8])
        ensures
            r@ == chunk_data(self@),
    {
        match self {
            MetadataChunk::Bext(data) => data.as_slice(),
            MetadataChunk::IXml(data) => data.as_str().as_bytes(),
            MetadataChunk::Soundminer(data) => data.as_slice(),
            MetadataChunk::ID3(data) => data.as_slice(),
            MetadataChunk::APE(data) => data.as_slice(),
            MetadataChunk::Picture { data, .. } => data.as_slice(),
            MetadataChunk::TextTag { value, .. } => value.as_str().as_bytes(),
            MetadataChunk::Unknown { data, .. } => data.as_slice(),
        }
    }

    /// The `key=value` pairs this chunk holds as text.
    pub fn as_text_tags(&self) -> (r: Vec<(String, String)>)
        ensures
            pairs_view(r@) == chunk_text_tags(self@),
    {
        match self {
            Self::IXml(xml) => parse_text_tags(xml.as_str(), false),
            Self::TextTag { key, value } => {
                let v = vec![(key.clone(), value.clone())];
                assert(pairs_view(v@) =~= seq![(key@, value@)]);
                v
            },
            _ => {
                let v: Vec<(String, String)> = Vec::new();
                assert(pairs_view(v@) =~= Seq::<(Seq<char>, Seq<char>)>::empty());
                v
            },
        }
    }

    /// This chunk as it would be carried over into a file of another format.
    pub fn to_format(&self, format: &str) -> (r: Option<MetadataChunk>)
        ensures
            r matches Some(c) ==> chunk_for_format(self@, format@) == Some(c@),
            r is None ==> chunk_for_format(self@, format@) is None,
    {
        match self {
            Self::IXml(_) => {
                if str_eq(format, "mp3") {
                    let _ = self.as_text_tags();
                    let v: Vec<u8> = Vec::new();
                    assert(v@ =~= Seq::<u8>::empty());
                    Some(Self::ID3(v))
                } else {
                    None
                }
            },
            Self::ID3(_) => {
                if str_eq(format, "wav") || str_eq(format, "flac") {
                    Some(Self::IXml(String::new()))
                } else {
                    None
                }
            },
            Self::Picture { mime_type, description, data } => Some(
                Self::Picture {
                    mime_type: mime_type.clone(),
                    description: description.clone(),
                    data: copy_bytes(data),
                },
            ),
            _ => None,
        }
    }

    /// A text tag chunk.
    pub fn new_text_tag(key: &str, value: &str) -> (r: Self)
        ensures
            r@ == ChunkModel::TextTag(key@, value@),
    {
        Self::TextTag { key: key.to_owned(), value: value.to_owned() }
    }

    /// A picture chunk.
    pub fn new_picture(mime_type: &str, description: &str, data: &[u8]) -> (r: Self)
        ensures
            r@ == ChunkModel::Picture(mime_type@, description@, data@),
    {
        let d = crate::bytes::copy_range(data, 0, data.len());
        assert(d@ =~= data@);
        Self::Picture { mime_type: mime_type.to_owned(), description: description.to_owned(), data: d }
    }
}


/// Why a metadata operation failed.
#[derive(Debug, Clone, Copy, PartialEq, Eq, Structural)]
pub enum MetadataError {
    /// The input ended inside a header or a chunk.
    UnexpectedEof,
    /// The input does not start with a `RIFF....WAVE` header.
    NotAWav,
    /// The input holds no `fmt ` chunk.
    MissingFmt,
}

/// The message that each metadata error reads as.
pub open spec fn error_message(e: MetadataError) -> Seq<char> {
    match e {
        MetadataError::UnexpectedEof => "failed to fill whole buffer"@,
        MetadataError::NotAWav => "Not a WAV file"@,
        MetadataError::MissingFmt => "WAV file missing fmt chunk"@,
    }
}

impl MetadataError {
    /// The error's message: the reader's message for an input that ends too
    /// soon, the format's own messages otherwise.
    pub fn message(&self) -> (r: String)
        ensures
            r@ == error_message(*self),
    {
        match self {
            MetadataError::UnexpectedEof => String::from_str("failed to fill whole buffer"),
            MetadataError::NotAWav => String::from_str("Not a WAV file"),
            MetadataError::MissingFmt => String::from_str("WAV file missing fmt chunk"),
        }
    }
}

/// The characters that `String::from_utf8_lossy` decodes from some bytes.
pub uninterp spec fn utf8_lossy(b: Seq<u8>) -> Seq<char>;

/// `String::from_utf8_lossy`: the bytes decoded as UTF-8, each invalid
/// sequence replaced by U+FFFD. The contract names the result, and states
/// that valid UTF-8 is decoded as it stands; how invalid sequences are
/// replaced is left unsaid.
#[verifier::external_body]
pub(crate) fn lossy_string(b: &[u8]) -> (s: String)
    ensures
        s@ == utf8_lossy(b@),
        valid_utf8(b@) ==> s@ == decode_utf8(b@),
{
    String::from_utf8_lossy(b).into_owned()
}

/// The text that some bytes decode to: valid UTF-8 decoded as it stands,
/// other bytes as `String::from_utf8_lossy` decodes them.
pub open spec fn decoded_text(b: Seq<u8>) -> Seq<char> {
    if valid_utf8(b) {
        decode_utf8(b)
    } else {
        utf8_lossy(b)
    }
}

/// A four-byte chunk identifier.
pub open spec fn fourcc(a: u8, b: u8, c: u8, d: u8) -> Seq<u8> {
    seq![a, b, c, d]
}

pub open spec fn id_riff() -> Seq<u8> { fourcc(82, 73, 70, 70) }
pub open spec fn id_wave() -> Seq<u8> { fourcc(87, 65, 86, 69) }
pub open spec fn id_fmt() -> Seq<u8> { fourcc(102, 109, 116, 32) }
pub open spec fn id_data() -> Seq<u8> { fourcc(100, 97, 116, 97) }
pub open spec fn id_bext() -> Seq<u8> { fourcc(98, 101, 120, 116) }
pub open spec fn id_ixml() -> Seq<u8> { fourcc(105, 88, 77, 76) }
pub open spec fn id_id3_lower() -> Seq<u8> { fourcc(105, 100, 51, 32) }
pub open spec fn id_id3_upper() -> Seq<u8> { fourcc(73, 68, 51, 32) }
pub open spec fn id_apic() -> Seq<u8> { fourcc(65, 80, 73, 67) }
pub open spec fn id_smed() -> Seq<u8> { fourcc(83, 77, 69, 68) }
pub open spec fn id_smrd() -> Seq<u8> { fourcc(83, 77, 82, 68) }
pub open spec fn id_smpl() -> Seq<u8> { fourcc(83, 77, 80, 76) }

/// Text pairs as text-tag chunks.
pub open spec fn tag_chunks(tags: Seq<(Seq<char>, Seq<char>)>) -> Seq<ChunkModel> {
    tags.map_values(|t: (Seq<char>, Seq<char>)| ChunkModel::TextTag(t.0, t.1))
}

/// The chunks that one RIFF chunk with identifier `id` and payload `data`
/// yields: an iXML chunk is preceded by its named `key=value` lines as text
/// tags, an `APIC` chunk longer than 8 bytes by a picture.
pub open spec fn chunks_for(id: Seq<u8>, data: Seq<u8>) -> Seq<ChunkModel> {
    if id == id_bext() {
        seq![ChunkModel::Bext(data)]
    } else if id == id_ixml() {
        let x = decoded_text(data);
        tag_chunks(text_tags(x, true)) + seq![ChunkModel::IXml(x)]
    } else if id == id_id3_lower() || id == id_id3_upper() {
        seq![ChunkModel::ID3(data)]
    } else if id == id_apic() {
        (if data.len() > 8 {
            seq![ChunkModel::Picture("image/jpeg"@, "Album Art"@, data)]
        } else {
            seq![]
        }) + seq![ChunkModel::Unknown("APIC"@, data)]
    } else if id == id_smed() || id == id_smrd() || id == id_smpl() {
        seq![ChunkModel::Soundminer(data)]
    } else {
        seq![ChunkModel::Unknown(decoded_text(id), data)]
    }
}

/// `r` with `a` in front of its chunks.
pub open spec fn prepend_chunks(a: Seq<ChunkModel>, r: Result<Seq<ChunkModel>, MetadataError>) -> Result<
    Seq<ChunkModel>,
    MetadataError,
> {
    match r {
        Ok(x) => Ok(a + x),
        Err(e) => Err(e),
    }
}

/// The offset of the chunk after the one at `pos`, whose payload has `size`
/// bytes, padded to an even length.
pub open spec fn next_chunk(pos: int, size: int) -> int {
    pos + 8 + size + size % 2
}

/// The metadata chunks of the RIFF chunks from offset `pos` on. A trailing
/// fragment shorter than an identifier ends the list; `fmt ` and `data`
/// chunks are passed over.
pub open spec fn parse_chunks(input: Seq<u8>, pos: int) -> Result<Seq<ChunkModel>, MetadataError>
    decreases (if pos < input.len() { input.len() - pos } else { 0 }),
{
    if pos < 0 || pos >= input.len() || input.len() - pos < 4 {
        Ok(seq![])
    } else if input.len() - pos < 8 {
        Err(MetadataError::UnexpectedEof)
    } else {
        let id = input.subrange(pos, pos + 4);
        let size = le32(input, pos + 4);
        if id == id_data() || id == id_fmt() {
            parse_chunks(input, next_chunk(pos, size))
        } else if pos + 8 + size > input.len() {
            Err(MetadataError::UnexpectedEof)
        } else {
            prepend_chunks(
                chunks_for(id, input.subrange(pos + 8, pos + 8 + size)),
                parse_chunks(input, next_chunk(pos, size)),
            )
        }
    }
}

/// Law: a chunk that was written is read back. Where a chunk with identifier
/// `id` (neither `fmt ` nor `data`) and payload `data` stands at offset
/// `pos`, reading from `pos` gives the chunks that `id` and `data` yield,
/// followed by what reading after the chunk gives.
proof fn lemma_frame_fields(s: Seq<u8>, pos: int, id: Seq<u8>, data: Seq<u8>)
    requires
        0 <= pos,
        id.len() == 4,
        data.len() < 0x1_0000_0000,
        pos + frame(id, data).len() <= s.len(),
        s.subrange(pos, pos + frame(id, data).len()) == frame(id, data),
    ensures
        s.subrange(pos, pos + 4) == id,
        le32(s, pos + 4) == data.len(),
        s.subrange(pos + 8, pos + 8 + data.len()) == data,
        frame(id, data).len() == 8 + data.len() + data.len() % 2,
{
    let f = frame(id, data);
    let n = data.len();
    let w = s.subrange(pos, pos + f.len());
    assert(f.subrange(4, 8) =~= le32_bytes(n as u32));
    crate::bytes::lemma_le32_roundtrip(n as u32);
    assert(le32(s, pos + 4) == le32(le32_bytes(n as u32), 0)) by {
        assert(s[pos + 4] == w[4]);
        assert(s[pos + 5] == w[5]);
        assert(s[pos + 6] == w[6]);
        assert(s[pos + 7] == w[7]);
    }
    assert(s.subrange(pos, pos + 4) =~= id) by {
        assert forall|k: int| 0 <= k < 4 implies s.subrange(pos, pos + 4)[k] == id[k] by {
            assert(s[pos + k] == w[k]);
        }
    }
    assert(s.subrange(pos + 8, pos + 8 + n) =~= data) by {
        assert forall|k: int| 0 <= k < n implies s.subrange(pos + 8, pos + 8 + n)[k] == data[k] by {
            assert(s[pos + 8 + k] == w[8 + k]);
        }
    }
}

#[verifier::rlimit(40)]
pub proof fn lemma_frame_read_back(s: Seq<u8>, pos: int, id: Seq<u8>, data: Seq<u8>)
    requires
        0 <= pos,
        id.len() == 4,
        id != id_fmt(),
        id != id_data(),
        data.len() < 0x1_0000_0000,
        pos + frame(id, data).len() <= s.len(),
        s.subrange(pos, pos + frame(id, data).len()) == frame(id, data),
    ensures
        parse_chunks(s, pos) == prepend_chunks(
            chunks_for(id, data),
            parse_chunks(s, pos + frame(id, data).len()),
        ),
{
    lemma_frame_fields(s, pos, id, data);
    assert(next_chunk(pos, data.len() as int) == pos + frame(id, data).len());
}

/// Law: an iXML chunk written from a text is read back as that text,
/// preceded by its named `key=value` lines as text tags.
pub proof fn lemma_ixml_read_back(x: Seq<char>)
    ensures
        chunks_for(id_ixml(), encode_utf8(x)) == tag_chunks(text_tags(x, true)) + seq![
            ChunkModel::IXml(x),
        ],
{
    encode_utf8_valid_utf8(x);
    encode_utf8_decode_utf8(x);
    assert(decoded_text(encode_utf8(x)) == x);
}

/// The metadata chunks of a WAV file.
pub open spec fn metadata_chunks(input: Seq<u8>) -> Result<Seq<ChunkModel>, MetadataError> {
    if input.len() < 12 {
        Err(MetadataError::UnexpectedEof)
    } else if input.subrange(0, 4) != id_riff() || input.subrange(8, 12) != id_wave() {
        Err(MetadataError::NotAWav)
    } else {
        parse_chunks(input, 12)
    }
}

fn is_fourcc(s: &[u8], pos: usize, a: u8, b: u8, c: u8, d: u8) -> (r: bool)
    requires
        pos + 4 <= s.len(),
    ensures
        r == (s@.subrange(pos as int, pos + 4) == fourcc(a, b, c, d)),
{
    let r = s[pos] == a && s[pos + 1] == b && s[pos + 2] == c && s[pos + 3] == d;
    assert(r ==> s@.subrange(pos as int, pos + 4) =~= fourcc(a, b, c, d));
    assert(s@.subrange(pos as int, pos + 4) == fourcc(a, b, c, d) ==> r) by {
        if s@.subrange(pos as int, pos + 4) == fourcc(a, b, c, d) {
            assert(s@.subrange(pos as int, pos + 4)[0] == a);
            assert(s@.subrange(pos as int, pos + 4)[1] == b);
            assert(s@.subrange(pos as int, pos + 4)[2] == c);
            assert(s@.subrange(pos as int, pos + 4)[3] == d);
        }
    }
    r
}

/// Appends the chunks that one RIFF chunk yields.
fn push_chunks_for(out: &mut Vec<MetadataChunk>, input: &[u8], pos: usize, size: usize)
    requires
        pos + 8 + size <= input.len(),
    ensures
        chunks_view(final(out)@) == chunks_view(old(out)@) + chunks_for(
            input@.subrange(pos as int, pos + 4),
            input@.subrange(pos + 8, pos + 8 + size),
        ),
{
    let ghost id = input@.subrange(pos as int, pos + 4);
    let data = copy_range(input, pos + 8, pos + 8 + size);
    let ghost start = chunks_view(out@);
    if is_fourcc(input, pos, 98, 101, 120, 116) {
        out.push(MetadataChunk::Bext(data));
        assert(chunks_view(out@) =~= start + seq![ChunkModel::Bext(data@)]);
    } else if is_fourcc(input, pos, 105, 88, 77, 76) {
        let xml = lossy_string(data.as_slice());
        assert(xml@ == decoded_text(data@));
        let tags = parse_text_tags(xml.as_str(), true);
        let mut i: usize = 0;
        while i < tags.len()
            invariant
                0 <= i <= tags.len(),
                pairs_view(tags@) == text_tags(xml@, true),
                chunks_view(out@) == start + tag_chunks(pairs_view(tags@).take(i as int)),
            decreases tags.len() - i,
        {
            let k = tags[i].0.clone();
            let v = tags[i].1.clone();
            let ghost prev = chunks_view(out@);
            out.push(MetadataChunk::TextTag { key: k, value: v });
            assert(chunks_view(out@) =~= prev.push(ChunkModel::TextTag(k@, v@)));
            assert(pairs_view(tags@)[i as int] == (tags@[i as int].0@, tags@[i as int].1@));
            assert(tag_chunks(pairs_view(tags@).take(i + 1)) =~= tag_chunks(
                pairs_view(tags@).take(i as int),
            ).push(ChunkModel::TextTag(k@, v@)));
            i = i + 1;
        }
        assert(pairs_view(tags@).take(tags.len() as int) =~= pairs_view(tags@));
        let ghost before = chunks_view(out@);
        out.push(MetadataChunk::IXml(xml));
        assert(chunks_view(out@) =~= before + seq![ChunkModel::IXml(xml@)]);
    } else if is_fourcc(input, pos, 105, 100, 51, 32) || is_fourcc(input, pos, 73, 68, 51, 32) {
        out.push(MetadataChunk::ID3(data));
        assert(chunks_view(out@) =~= start + seq![ChunkModel::ID3(data@)]);
    } else if is_fourcc(input, pos, 65, 80, 73, 67) {
        if data.len() > 8 {
            out.push(
                MetadataChunk::Picture {
                    mime_type: "image/jpeg".to_owned(),
                    description: "Album Art".to_owned(),
                    data: copy_bytes(&data),
                },
            );
        }
        let ghost mid = chunks_view(out@);
        assert(mid =~= start + (if data@.len() > 8 {
            seq![ChunkModel::Picture("image/jpeg"@, "Album Art"@, data@)]
        } else {
            seq![]
        }));
        out.push(MetadataChunk::Unknown { id: "APIC".to_owned(), data });
        assert(chunks_view(out@) =~= mid + seq![ChunkModel::Unknown("APIC"@, data@)]);
    } else if is_fourcc(input, pos, 83, 77, 69, 68) || is_fourcc(input, pos, 83, 77, 82, 68)
        || is_fourcc(input, pos, 83, 77, 80, 76) {
        out.push(MetadataChunk::Soundminer(data));
        assert(chunks_view(out@) =~= start + seq![ChunkModel::Soundminer(data@)]);
    } else {
        let id_bytes = copy_range(input, pos, pos + 4);
        let id_str = lossy_string(id_bytes.as_slice());
        assert(id_str@ == decoded_text(id));
        out.push(MetadataChunk::Unknown { id: id_str, data });
        assert(chunks_view(out@) =~= start + seq![ChunkModel::Unknown(decoded_text(id), data@)]);
    }
}

/// Reads the metadata chunks of a WAV file: every chunk but `fmt ` and
/// `data`, in file order.
pub fn extract_metadata_chunks(input: &[u8]) -> (r: Result<Vec<MetadataChunk>, MetadataError>)
    requires
        input@.len() <= isize::MAX,
    ensures
        r matches Ok(v) ==> metadata_chunks(input@) == Ok::<Seq<ChunkModel>, MetadataError>(
            chunks_view(v@),
        ),
        r matches Err(e) ==> metadata_chunks(input@) == Err::<Seq<ChunkModel>, MetadataError>(e),
{
    if input.len() < 12 {
        return Err(MetadataError::UnexpectedEof);
    }
    if !(is_fourcc(input, 0, 82, 73, 70, 70) && is_fourcc(input, 8, 87, 65, 86, 69)) {
        return Err(MetadataError::NotAWav);
    }
    let len = input.len() as u64;
    let mut pos: u64 = 12;
    let mut out: Vec<MetadataChunk> = Vec::new();
    assert(chunks_view(out@) =~= Seq::<ChunkModel>::empty());
    assert(prepend_chunks(chunks_view(out@), parse_chunks(input@, 12)) =~= parse_chunks(input@, 12))
        by {
        match parse_chunks(input@, 12) {
            Ok(x) => {
                assert(Seq::<ChunkModel>::empty() + x =~= x);
            },
            Err(_) => {},
        }
    }
    while pos < len
        invariant
            len == input@.len(),
            len <= isize::MAX,
            12 <= pos,
            pos <= len + 0x1_0000_0001,
            metadata_chunks(input@) == prepend_chunks(chunks_view(out@), parse_chunks(input@, pos as int)),
        ensures
            12 <= pos,
            pos >= len || len - pos < 4,
            metadata_chunks(input@) == prepend_chunks(chunks_view(out@), parse_chunks(input@, pos as int)),
        decreases (if pos < len { len - pos } else { 0 }),
    {
        if len - pos < 4 {
            break;
        }
        if len - pos < 8 {
            return Err(MetadataError::UnexpectedEof);
        }
        let p = pos as usize;
        let size = read_le32(input, p + 4);
        if is_fourcc(input, p, 100, 97, 116, 97) || is_fourcc(input, p, 102, 109, 116, 32) {
            pos = pos + 8 + size as u64 + (size % 2) as u64;
            continue;
        }
        if pos + 8 + size as u64 > len {
            return Err(MetadataError::UnexpectedEof);
        }
        let ghost before = chunks_view(out@);
        push_chunks_for(&mut out, input, p, size as usize);
        proof {
            let id = input@.subrange(p as int, p + 4);
            let ch = chunks_for(id, input@.subrange(p + 8, p + 8 + size));
            match parse_chunks(input@, next_chunk(pos as int, size as int)) {
                Ok(x) => {
                    assert(before + (ch + x) =~= (before + ch) + x);
                },
                Err(_) => {},
            }
        }
        pos = pos + 8 + size as u64 + (size % 2) as u64;
    }
    proof {
        assert(parse_chunks(input@, pos as int) == Ok::<Seq<ChunkModel>, MetadataError>(seq![]));
        assert(chunks_view(out@) + Seq::<ChunkModel>::empty() =~= chunks_view(out@));
    }
    Ok(out)
}


/// A RIFF chunk as it is written: identifier, little-endian payload size,
/// payload, and a zero pad byte after a payload of odd size.
pub open spec fn frame(id: Seq<u8>, data: Seq<u8>) -> Seq<u8> {
    id + le32_bytes((data.len() % 0x1_0000_0000) as u32) + data + (if data.len() % 2 == 1 {
        seq![0u8]
    } else {
        seq![]
    })
}

/// Appends one RIFF chunk.
pub fn write_chunk(out: &mut Vec<u8>, id: &[u8], data: &[u8])
    ensures
        final(out)@ == old(out)@ + frame(id@, data@),
{
    push_all(out, id);
    let n = ((data.len() as u64) % 0x1_0000_0000) as u32;
    push_le32(out, n);
    push_all(out, data);
    if data.len() % 2 == 1 {
        out.push(0);
    }
    assert(final(out)@ =~= old(out)@ + frame(id@, data@));
}

/// Whether a `fmt ` payload can be rewritten for one channel: it holds the
/// fields up to the bit depth, and the new byte rate fits in 32 bits.
pub open spec fn fmt_patchable(d: Seq<u8>) -> bool {
    d.len() >= 16 && le32(d, 4) * (le16(d, 14) / 8) <= u32::MAX
}

/// A `fmt ` payload rewritten for one channel: channel count 1, block align
/// one sample, byte rate the sample rate times that.
pub open spec fn patch_fmt(d: Seq<u8>) -> Seq<u8> {
    let align = (le16(d, 14) / 8) as u16;
    let byte_rate = (le32(d, 4) * align) as u32;
    d.take(2) + seq![1u8, 0u8] + d.subrange(4, 8) + le32_bytes(byte_rate) + le16_bytes(align)
        + d.skip(14)
}

/// Whether an identifier names a metadata chunk that embedding replaces.
pub open spec fn is_replaced_id(id: Seq<u8>) -> bool {
    id == id_bext() || id == id_ixml() || id == id_smed() || id == id_smrd() || id == id_smpl()
        || id == id_id3_lower() || id == id_id3_upper() || id == id_apic()
}

/// The non-metadata chunks from offset `pos` on, rewritten for embedding, and
/// whether a `fmt ` chunk was among them. A chunk that is kept is followed
/// directly by the next one, without its pad byte; a replaced metadata chunk
/// is passed over with its pad byte. In a mono file the `fmt ` chunk is
/// rewritten for one channel.
#[verifier::opaque]
pub open spec fn scan_chunks(input: Seq<u8>, pos: int, mono: bool) -> Result<
    (Seq<u8>, bool),
    MetadataError,
>
    decreases (if pos < input.len() { input.len() - pos } else { 0 }),
{
    if pos < 0 || pos >= input.len() || input.len() - pos < 4 {
        Ok((seq![], false))
    } else if input.len() - pos < 8 {
        Err(MetadataError::UnexpectedEof)
    } else {
        let id = input.subrange(pos, pos + 4);
        let size = le32(input, pos + 4);
        if pos + 8 + size > input.len() {
            Err(MetadataError::UnexpectedEof)
        } else {
            let data = input.subrange(pos + 8, pos + 8 + size);
            if id == id_fmt() {
                let d2 = if mono {
                    patch_fmt(data)
                } else {
                    data
                };
                match scan_chunks(input, pos + 8 + size, mono) {
                    Ok((rest, _)) => Ok((frame(id, d2) + rest, true)),
                    Err(e) => Err(e),
                }
            } else if is_replaced_id(id) {
                scan_chunks(input, next_chunk(pos, size), mono)
            } else {
                match scan_chunks(input, pos + 8 + size, mono) {
                    Ok((rest, f)) => Ok((frame(id, data) + rest, f)),
                    Err(e) => Err(e),
                }
            }
        }
    }
}

/// Whether scanning from `pos` on meets a mono `fmt ` chunk it cannot rewrite.
#[verifier::opaque]
pub open spec fn scan_panics(input: Seq<u8>, pos: int, mono: bool) -> bool
    decreases (if pos < input.len() { input.len() - pos } else { 0 }),
{
    if pos < 0 || pos >= input.len() || input.len() - pos < 8 {
        false
    } else {
        let id = input.subrange(pos, pos + 4);
        let size = le32(input, pos + 4);
        if pos + 8 + size > input.len() {
            false
        } else if id == id_fmt() {
            (mono && !fmt_patchable(input.subrange(pos + 8, pos + 8 + size))) || scan_panics(
                input,
                pos + 8 + size,
                mono,
            )
        } else if is_replaced_id(id) {
            scan_panics(input, next_chunk(pos, size), mono)
        } else {
            scan_panics(input, pos + 8 + size, mono)
        }
    }
}

/// A `bext` payload for a mono file: the channel count at offset 354 set to 1.
pub open spec fn patch_bext(d: Seq<u8>, mono: bool) -> Seq<u8> {
    if mono && d.len() >= 356 {
        d.update(354, 1u8).update(355, 0u8)
    } else {
        d
    }
}

/// An iXML text for a mono file: two-channel settings turned into one-channel ones.
pub open spec fn patch_xml(x: Seq<char>, mono: bool) -> Seq<char> {
    if mono {
        replace_all(
            replace_all(replace_all(x, "CHANNELS=2"@, "CHANNELS=1"@), "channels=2"@, "channels=1"@),
            "NumChannels=2"@,
            "NumChannels=1"@,
        )
    } else {
        x
    }
}

/// The RIFF chunk that a metadata chunk becomes in pass `kind` of writing:
/// `bext` chunks first, then iXML, pictures, ID3, and Soundminer and unknown
/// chunks last. APE and text-tag chunks are not written as such.
pub open spec fn frame_of(kind: int, c: ChunkModel, mono: bool) -> Seq<u8> {
    match c {
        ChunkModel::Bext(d) => if kind == 0 {
            frame(id_bext(), patch_bext(d, mono))
        } else {
            seq![]
        },
        ChunkModel::IXml(x) => if kind == 1 {
            frame(id_ixml(), encode_utf8(patch_xml(x, mono)))
        } else {
            seq![]
        },
        ChunkModel::Picture(_, _, d) => if kind == 2 {
            frame(id_apic(), d)
        } else {
            seq![]
        },
        ChunkModel::ID3(d) => if kind == 3 {
            frame(id_id3_lower(), d)
        } else {
            seq![]
        },
        ChunkModel::Soundminer(d) => if kind == 4 {
            frame(id_smed(), d)
        } else {
            seq![]
        },
        ChunkModel::Unknown(id, d) => if kind == 4 {
            frame(encode_utf8(id), d)
        } else {
            seq![]
        },
        _ => seq![],
    }
}

/// The RIFF chunks that pass `kind` writes for a list of metadata chunks.
pub open spec fn frames(cs: Seq<ChunkModel>, kind: int, mono: bool) -> Seq<u8>
    decreases cs.len(),
{
    if cs.len() == 0 {
        seq![]
    } else {
        frames(cs.drop_last(), kind, mono) + frame_of(kind, cs.last(), mono)
    }
}

/// The `key=value` lines of the text-tag chunks of a list.
pub open spec fn tags_text(cs: Seq<ChunkModel>) -> Seq<char>
    decreases cs.len(),
{
    if cs.len() == 0 {
        seq![]
    } else {
        tags_text(cs.drop_last()) + match cs.last() {
            ChunkModel::TextTag(k, v) => k + "="@ + v + "\n"@,
            _ => seq![],
        }
    }
}

/// The iXML chunks to write: those of the list, or when it has none, one made
/// of the `key=value` lines of its text tags.
pub open spec fn ixml_part(cs: Seq<ChunkModel>, mono: bool) -> Seq<u8> {
    if exists|i: int| 0 <= i < cs.len() && cs[i] is IXml {
        frames(cs, 1, mono)
    } else if exists|i: int| 0 <= i < cs.len() && cs[i] is TextTag {
        frame(id_ixml(), encode_utf8(tags_text(cs)))
    } else {
        seq![]
    }
}

/// All metadata chunks, as they are written after the audio chunks.
pub open spec fn metadata_bytes(cs: Seq<ChunkModel>, mono: bool) -> Seq<u8> {
    frames(cs, 0, mono) + ixml_part(cs, mono) + frames(cs, 2, mono) + frames(cs, 3, mono) + frames(
        cs,
        4,
        mono,
    )
}

/// Whether the file is mono by the channel count of its header.
pub open spec fn header_mono(input: Seq<u8>) -> bool {
    le16(input, 22) == 1
}

/// The file before its RIFF size is fixed: header, audio chunks, metadata.
pub open spec fn embed_body(input: Seq<u8>, body: Seq<u8>, cs: Seq<ChunkModel>) -> Seq<u8> {
    input.take(12) + body + metadata_bytes(cs, header_mono(input))
}

/// `out` with the RIFF size field set to its length less 8.
pub open spec fn with_riff_size(out: Seq<u8>) -> Seq<u8> {
    out.take(4) + le32_bytes(((out.len() % 0x1_0000_0000) - 8) as u32) + out.skip(8)
}

/// The file that embedding the metadata chunks `cs` into `input` gives: the
/// header, the audio chunks of the input, then the metadata chunks, with the
/// RIFF size fixed.
pub open spec fn embedded(input: Seq<u8>, cs: Seq<ChunkModel>) -> Result<Seq<u8>, MetadataError> {
    if input.len() < 24 {
        Err(MetadataError::UnexpectedEof)
    } else {
        match scan_chunks(input, 12, header_mono(input)) {
            Err(e) => Err(e),
            Ok((body, found)) => if !found {
                Err(MetadataError::MissingFmt)
            } else {
                Ok(with_riff_size(embed_body(input, body, cs)))
            },
        }
    }
}

/// Whether embedding would fail on a byte it cannot hold: a mono `fmt ` chunk
/// that cannot be rewritten, or a file whose size modulo 2^32 is under 8.
pub open spec fn embed_panics(input: Seq<u8>, cs: Seq<ChunkModel>) -> bool {
    input.len() >= 24 && (scan_panics(input, 12, header_mono(input)) || match scan_chunks(
        input,
        12,
        header_mono(input),
    ) {
        Ok((body, true)) => embed_body(input, body, cs).len() % 0x1_0000_0000 < 8,
        _ => false,
    })
}

/// A WAV file of a header, one `fmt ` chunk and one `data` chunk.
pub open spec fn plain_wav(header: Seq<u8>, fmt: Seq<u8>, data: Seq<u8>) -> Seq<u8> {
    header + frame(id_fmt(), fmt) + frame(id_data(), data)
}

proof fn lemma_ids_differ()
    ensures
        id_data() != id_fmt(),
        id_bext() != id_fmt(),
        id_bext() != id_data(),
        !is_replaced_id(id_data()),
{
    assert(id_data()[0] != id_fmt()[0]);
    assert(id_bext()[0] != id_fmt()[0]);
    assert(id_bext()[0] != id_data()[0]);
    assert(id_data()[0] != id_bext()[0]);
    assert(id_data()[0] != id_ixml()[0]);
    assert(id_data()[0] != id_smed()[0]);
    assert(id_data()[0] != id_smrd()[0]);
    assert(id_data()[0] != id_smpl()[0]);
    assert(id_data()[0] != id_id3_lower()[0]);
    assert(id_data()[0] != id_id3_upper()[0]);
    assert(id_data()[0] != id_apic()[0]);
}

/// Scanning a plain WAV file keeps its two chunks, as they stand.
#[verifier::rlimit(40)]
proof fn lemma_plain_wav_scan(header: Seq<u8>, fmt: Seq<u8>, data: Seq<u8>)
    requires
        header.len() == 12,
        fmt.len() == 16,
        le16(fmt, 2) != 1,
        data.len() % 2 == 0,
        data.len() < 0x1_0000_0000 - 100,
    ensures
        plain_wav(header, fmt, data).len() == 44 + data.len(),
        !header_mono(plain_wav(header, fmt, data)),
        scan_chunks(plain_wav(header, fmt, data), 12, false) == Ok::<(Seq<u8>, bool), MetadataError>(
            (frame(id_fmt(), fmt) + frame(id_data(), data), true),
        ),
        !scan_panics(plain_wav(header, fmt, data), 12, false),
{
    let w = plain_wav(header, fmt, data);
    let ff = frame(id_fmt(), fmt);
    let fd = frame(id_data(), data);
    let dl = data.len() as int;
    lemma_ids_differ();
    assert(ff.len() == 24);
    assert(fd.len() == 8 + dl);
    assert(w.subrange(12, 36) =~= ff);
    assert(w.subrange(36, 44 + dl) =~= fd);
    lemma_frame_fields(w, 12, id_fmt(), fmt);
    lemma_frame_fields(w, 36, id_data(), data);
    assert(w[22] == ff[10] && w[23] == ff[11]);
    assert(scan_chunks(w, 44 + dl, false) == Ok::<(Seq<u8>, bool), MetadataError>((seq![], false))) by {
        reveal(scan_chunks);
    }
    assert(scan_chunks(w, 36, false) == Ok::<(Seq<u8>, bool), MetadataError>((fd, false))) by {
        reveal(scan_chunks);
        assert(fd + seq![] =~= fd);
    }
    assert(scan_chunks(w, 12, false) == Ok::<(Seq<u8>, bool), MetadataError>((ff + fd, true))) by {
        reveal(scan_chunks);
    }
    assert(!scan_panics(w, 44 + dl, false)) by {
        reveal(scan_panics);
    }
    assert(!scan_panics(w, 36, false)) by {
        reveal(scan_panics);
    }
    assert(!scan_panics(w, 12, false)) by {
        reveal(scan_panics);
    }
}

/// A lone `bext` chunk is written as one `bext` RIFF chunk.
proof fn lemma_bext_bytes(b: Seq<u8>)
    ensures
        metadata_bytes(seq![ChunkModel::Bext(b)], false) == frame(id_bext(), b),
{
    let cs = seq![ChunkModel::Bext(b)];
    assert(cs.last() == ChunkModel::Bext(b));
    assert(frames(cs.drop_last(), 0, false) =~= seq![]);
    assert(frames(cs, 0, false) =~= frame(id_bext(), b));
    assert(frames(cs.drop_last(), 2, false) =~= seq![]);
    assert(frames(cs.drop_last(), 3, false) =~= seq![]);
    assert(frames(cs.drop_last(), 4, false) =~= seq![]);
    assert(frame_of(2, ChunkModel::Bext(b), false) =~= seq![]);
    assert(frame_of(3, ChunkModel::Bext(b), false) =~= seq![]);
    assert(frame_of(4, ChunkModel::Bext(b), false) =~= seq![]);
    assert(frames(cs, 2, false) =~= seq![]);
    assert(frames(cs, 3, false) =~= seq![]);
    assert(frames(cs, 4, false) =~= seq![]);
    assert(!(exists|i: int| 0 <= i < cs.len() && cs[i] is IXml));
    assert(!(exists|i: int| 0 <= i < cs.len() && cs[i] is TextTag));
    assert(ixml_part(cs, false) =~= seq![]);
    assert(metadata_bytes(cs, false) =~= frame(id_bext(), b));
}

/// A lone `Picture` chunk is written as one `APIC` RIFF chunk of its data.
proof fn lemma_picture_bytes(m: Seq<char>, desc: Seq<char>, d: Seq<u8>)
    ensures
        metadata_bytes(seq![ChunkModel::Picture(m, desc, d)], false) == frame(id_apic(), d),
{
    let c = ChunkModel::Picture(m, desc, d);
    let cs = seq![c];
    assert(cs.last() == c);
    assert(frames(cs.drop_last(), 0, false) =~= seq![]);
    assert(frames(cs.drop_last(), 2, false) =~= seq![]);
    assert(frames(cs.drop_last(), 3, false) =~= seq![]);
    assert(frames(cs.drop_last(), 4, false) =~= seq![]);
    assert(frame_of(0, c, false) =~= seq![]);
    assert(frame_of(3, c, false) =~= seq![]);
    assert(frame_of(4, c, false) =~= seq![]);
    assert(frames(cs, 0, false) =~= seq![]);
    assert(frames(cs, 2, false) =~= frame(id_apic(), d));
    assert(frames(cs, 3, false) =~= seq![]);
    assert(frames(cs, 4, false) =~= seq![]);
    assert(!(exists|i: int| 0 <= i < cs.len() && cs[i] is IXml));
    assert(!(exists|i: int| 0 <= i < cs.len() && cs[i] is TextTag));
    assert(ixml_part(cs, false) =~= seq![]);
    assert(metadata_bytes(cs, false) =~= frame(id_apic(), d));
}

/// Reading a plain WAV file followed by one more RIFF chunk, with any RIFF
/// size, gives the chunks that the added chunk yields.
#[verifier::rlimit(60)]
proof fn lemma_read_plain_plus(
    header: Seq<u8>,
    fmt: Seq<u8>,
    data: Seq<u8>,
    id: Seq<u8>,
    b: Seq<u8>,
    size: Seq<u8>,
)
    requires
        header.len() == 12,
        header.subrange(0, 4) == id_riff(),
        header.subrange(8, 12) == id_wave(),
        size.len() == 4,
        fmt.len() == 16,
        id.len() == 4,
        id != id_fmt(),
        id != id_data(),
        data.len() % 2 == 0,
        data.len() + b.len() < 0x1_0000_0000 - 100,
    ensures
        ({
            let out0 = plain_wav(header, fmt, data) + frame(id, b);
            metadata_chunks(out0.take(4) + size + out0.skip(8)) == Ok::<Seq<ChunkModel>, MetadataError>(
                chunks_for(id, b),
            )
        }),
{
    let ff = frame(id_fmt(), fmt);
    let fd = frame(id_data(), data);
    let fb = frame(id, b);
    let dl = data.len() as int;
    let out0 = plain_wav(header, fmt, data) + fb;
    let out = out0.take(4) + size + out0.skip(8);
    lemma_ids_differ();
    assert(ff.len() == 24);
    assert(fd.len() == 8 + dl);
    assert(fb.len() == 8 + b.len() + b.len() % 2);
    assert(out.len() == out0.len());
    assert(out.subrange(0, 4) =~= header.subrange(0, 4));
    assert(out.subrange(8, 12) =~= header.subrange(8, 12));
    assert(out.subrange(12, 36) =~= ff);
    assert(out.subrange(36, 44 + dl) =~= fd);
    assert(out.subrange(44 + dl, 44 + dl + fb.len()) =~= fb);
    lemma_frame_fields(out, 12, id_fmt(), fmt);
    lemma_frame_fields(out, 36, id_data(), data);
    assert(parse_chunks(out, 12) == parse_chunks(out, 36));
    assert(parse_chunks(out, 36) == parse_chunks(out, 44 + dl));
    lemma_frame_read_back(out, 44 + dl, id, b);
    assert(parse_chunks(out, out.len() as int) == Ok::<Seq<ChunkModel>, MetadataError>(seq![]));
    assert(chunks_for(id, b) + seq![] =~= chunks_for(id, b));
}

/// Embedding one metadata chunk that is written as the RIFF chunk `id`,
/// `b` into a plain WAV file does not panic, and reading the result gives
/// what that RIFF chunk yields.
#[verifier::rlimit(60)]
proof fn lemma_embed_one(header: Seq<u8>, fmt: Seq<u8>, data: Seq<u8>, c: ChunkModel, id: Seq<u8>, b: Seq<u8>)
    requires
        header.len() == 12,
        header.subrange(0, 4) == id_riff(),
        header.subrange(8, 12) == id_wave(),
        fmt.len() == 16,
        le16(fmt, 2) != 1,
        data.len() % 2 == 0,
        data.len() + b.len() < 0x1_0000_0000 - 100,
        id.len() == 4,
        id != id_fmt(),
        id != id_data(),
        metadata_bytes(seq![c], false) == frame(id, b),
    ensures
        !embed_panics(plain_wav(header, fmt, data), seq![c]),
        embedded(plain_wav(header, fmt, data), seq![c]) matches Ok(out) && metadata_chunks(out) == Ok::<
            Seq<ChunkModel>,
            MetadataError,
        >(chunks_for(id, b)),
{
    let w = plain_wav(header, fmt, data);
    let cs = seq![c];
    let body = frame(id_fmt(), fmt) + frame(id_data(), data);
    let fb = frame(id, b);
    lemma_plain_wav_scan(header, fmt, data);
    assert(!header_mono(w));
    assert(metadata_bytes(cs, header_mono(w)) == fb);
    assert(w.take(12) =~= header);
    assert(header + body =~= w);
    let out0 = embed_body(w, body, cs);
    assert(out0 == w + fb);
    assert(fb.len() == 8 + b.len() + b.len() % 2);
    assert(out0.len() == w.len() + fb.len());
    assert(out0.len() % 0x1_0000_0000 == out0.len());
    let size = le32_bytes(((out0.len() % 0x1_0000_0000) - 8) as u32);
    assert(embedded(w, cs) == Ok::<Seq<u8>, MetadataError>(with_riff_size(out0)));
    assert(with_riff_size(out0) == out0.take(4) + size + out0.skip(8));
    lemma_read_plain_plus(header, fmt, data, id, b, size);
}

/// Law: a `bext` chunk embedded into a plain WAV file is read back alone.
/// Embedding the one chunk `Bext(b)` into a file made of a `RIFF....WAVE`
/// header, a 16-byte `fmt ` chunk of more or fewer channels than one and a
/// `data` chunk of even size succeeds without a panic, and reading the
/// metadata of the result gives exactly that chunk: the `fmt ` and `data`
/// chunks are not reported as metadata.
pub proof fn lemma_bext_round_trip(header: Seq<u8>, fmt: Seq<u8>, data: Seq<u8>, b: Seq<u8>)
    requires
        header.len() == 12,
        header.subrange(0, 4) == id_riff(),
        header.subrange(8, 12) == id_wave(),
        fmt.len() == 16,
        le16(fmt, 2) != 1,
        data.len() % 2 == 0,
        data.len() + b.len() < 0x1_0000_0000 - 100,
    ensures
        !embed_panics(plain_wav(header, fmt, data), seq![ChunkModel::Bext(b)]),
        embedded(plain_wav(header, fmt, data), seq![ChunkModel::Bext(b)]) matches Ok(out)
            && metadata_chunks(out) == Ok::<Seq<ChunkModel>, MetadataError>(seq![ChunkModel::Bext(b)]),
{
    lemma_ids_differ();
    lemma_bext_bytes(b);
    lemma_embed_one(header, fmt, data, ChunkModel::Bext(b), id_bext(), b);
    assert(chunks_for(id_bext(), b) == seq![ChunkModel::Bext(b)]);
}

/// Law: album art embedded into a plain WAV file is read back as album art.
/// Embedding one picture of more than 8 bytes into a file made of a
/// `RIFF....WAVE` header, a 16-byte `fmt ` chunk of more or fewer channels
/// than one and a `data` chunk of even size succeeds without a panic, and
/// reading the metadata of the result gives a JPEG picture described as
/// `Album Art` holding the picture's bytes, followed by the raw `APIC`
/// chunk with the same bytes.
pub proof fn lemma_picture_round_trip(
    header: Seq<u8>,
    fmt: Seq<u8>,
    data: Seq<u8>,
    mime_type: Seq<char>,
    description: Seq<char>,
    d: Seq<u8>,
)
    requires
        header.len() == 12,
        header.subrange(0, 4) == id_riff(),
        header.subrange(8, 12) == id_wave(),
        fmt.len() == 16,
        le16(fmt, 2) != 1,
        data.len() % 2 == 0,
        data.len() + d.len() < 0x1_0000_0000 - 100,
        d.len() > 8,
    ensures
        !embed_panics(plain_wav(header, fmt, data), seq![ChunkModel::Picture(mime_type, description, d)]),
        embedded(plain_wav(header, fmt, data), seq![ChunkModel::Picture(mime_type, description, d)]) matches Ok(
            out,
        ) && metadata_chunks(out) == Ok::<Seq<ChunkModel>, MetadataError>(
            seq![ChunkModel::Picture("image/jpeg"@, "Album Art"@, d), ChunkModel::Unknown("APIC"@, d)],
        ),
{
    assert(id_apic() != id_fmt()) by {
        assert(id_apic()[0] != id_fmt()[0]);
    }
    assert(id_apic() != id_data()) by {
        assert(id_apic()[0] != id_data()[0]);
    }
    assert(id_apic() != id_bext()) by {
        assert(id_apic()[0] != id_bext()[0]);
    }
    assert(id_apic() != id_ixml()) by {
        assert(id_apic()[0] != id_ixml()[0]);
    }
    assert(id_apic() != id_id3_lower()) by {
        assert(id_apic()[0] != id_id3_lower()[0]);
    }
    assert(id_apic() != id_id3_upper()) by {
        assert(id_apic()[0] != id_id3_upper()[0]);
    }
    lemma_picture_bytes(mime_type, description, d);
    lemma_embed_one(header, fmt, data, ChunkModel::Picture(mime_type, description, d), id_apic(), d);
    assert(chunks_for(id_apic(), d) =~= seq![
        ChunkModel::Picture("image/jpeg"@, "Album Art"@, d),
        ChunkModel::Unknown("APIC"@, d),
    ]);
}

fn patch_fmt_exec(d: &[u8]) -> (r: Vec<u8>)
    requires
        fmt_patchable(d@),
    ensures
        r@ == patch_fmt(d@),
{
    let bits = read_le16(d, 14);
    let align: u16 = bits / 8;
    let rate = read_le32(d, 4);
    let byte_rate: u32 = rate * (align as u32);
    let mut r = copy_range(d, 0, 2);
    r.push(1);
    r.push(0);
    push_all(&mut r, &d[4..8]);
    push_le32(&mut r, byte_rate);
    push_le16(&mut r, align);
    let tail = copy_range(d, 14, d.len());
    push_all(&mut r, &tail);
    assert(d@.subrange(4, 8) == d@.subrange(4, 8));
    assert(r@ =~= patch_fmt(d@));
    r
}

/// `r` with `prefix` in front of the written bytes and `found` joined in.
pub open spec fn join_scan(prefix: Seq<u8>, found: bool, r: Result<(Seq<u8>, bool), MetadataError>) -> Result<
    (Seq<u8>, bool),
    MetadataError,
> {
    match r {
        Ok((b, f)) => Ok((prefix + b, found || f)),
        Err(e) => Err(e),
    }
}

fn copy_bext(d: &Vec<u8>, mono: bool) -> (r: Vec<u8>)
    ensures
        r@ == patch_bext(d@, mono),
{
    let mut r = copy_bytes(d);
    if mono && r.len() >= 356 {
        r.set(354, 1);
        r.set(355, 0);
    }
    r
}

fn patched_xml(x: &String, mono: bool) -> (r: String)
    ensures
        r@ == patch_xml(x@, mono),
{
    if !mono {
        return x.clone();
    }
    let v = crate::text::str_chars(x.as_str());
    let a = crate::text::str_chars("CHANNELS=2");
    let b = crate::text::str_chars("CHANNELS=1");
    let c = crate::text::str_chars("channels=2");
    let d = crate::text::str_chars("channels=1");
    let e = crate::text::str_chars("NumChannels=2");
    let f = crate::text::str_chars("NumChannels=1");
    proof {
        reveal_strlit("CHANNELS=2");
        reveal_strlit("channels=2");
        reveal_strlit("NumChannels=2");
    }
    let v1 = replace_seq(&v, &a, &b);
    let v2 = replace_seq(&v1, &c, &d);
    let v3 = replace_seq(&v2, &e, &f);
    string_from_chars(&v3)
}

/// Appends the RIFF chunk that one metadata chunk becomes in pass `kind`.
fn push_frame_of(out: &mut Vec<u8>, c: &MetadataChunk, kind: u8, mono: bool)
    ensures
        final(out)@ == old(out)@ + frame_of(kind as int, c@, mono),
{
    match c {
        MetadataChunk::Bext(d) => {
            if kind == 0 {
                let b = copy_bext(d, mono);
                let id: [u8; 4] = [98, 101, 120, 116];
                assert(id@ =~= id_bext());
                write_chunk(out, &id, &b);
            } else {
                assert(old(out)@ + Seq::<u8>::empty() =~= old(out)@);
            }
        },
        MetadataChunk::IXml(x) => {
            if kind == 1 {
                let px = patched_xml(x, mono);
                let id: [u8; 4] = [105, 88, 77, 76];
                assert(id@ =~= id_ixml());
                write_chunk(out, &id, px.as_str().as_bytes());
            } else {
                assert(old(out)@ + Seq::<u8>::empty() =~= old(out)@);
            }
        },
        MetadataChunk::Picture { data, .. } => {
            if kind == 2 {
                let id: [u8; 4] = [65, 80, 73, 67];
                assert(id@ =~= id_apic());
                write_chunk(out, &id, data.as_slice());
            } else {
                assert(old(out)@ + Seq::<u8>::empty() =~= old(out)@);
            }
        },
        MetadataChunk::ID3(data) => {
            if kind == 3 {
                let id: [u8; 4] = [105, 100, 51, 32];
                assert(id@ =~= id_id3_lower());
                write_chunk(out, &id, data.as_slice());
            } else {
                assert(old(out)@ + Seq::<u8>::empty() =~= old(out)@);
            }
        },
        MetadataChunk::Soundminer(data) => {
            if kind == 4 {
                let id: [u8; 4] = [83, 77, 69, 68];
                assert(id@ =~= id_smed());
                write_chunk(out, &id, data.as_slice());
            } else {
                assert(old(out)@ + Seq::<u8>::empty() =~= old(out)@);
            }
        },
        MetadataChunk::Unknown { id, data } => {
            if kind == 4 {
                write_chunk(out, id.as_str().as_bytes(), data.as_slice());
            } else {
                assert(old(out)@ + Seq::<u8>::empty() =~= old(out)@);
            }
        },
        _ => {
            assert(old(out)@ + Seq::<u8>::empty() =~= old(out)@);
        },
    }
}

/// Appends the RIFF chunks that pass `kind` writes for a list of metadata chunks.
fn push_frames(out: &mut Vec<u8>, chunks: &[MetadataChunk], kind: u8, mono: bool)
    ensures
        final(out)@ == old(out)@ + frames(chunks_view(chunks@), kind as int, mono),
{
    let ghost cs = chunks_view(chunks@);
    let mut i: usize = 0;
    assert(cs.take(0) =~= Seq::<ChunkModel>::empty());
    assert(old(out)@ + Seq::<u8>::empty() =~= old(out)@);
    while i < chunks.len()
        invariant
            0 <= i <= chunks.len(),
            cs == chunks_view(chunks@),
            out@ == old(out)@ + frames(cs.take(i as int), kind as int, mono),
        decreases chunks.len() - i,
    {
        push_frame_of(out, &chunks[i], kind, mono);
        assert(cs.take(i + 1).drop_last() =~= cs.take(i as int));
        assert(cs.take(i + 1).last() == chunks@[i as int]@);
        assert(frames(cs.take(i + 1), kind as int, mono) == frames(cs.take(i as int), kind as int, mono)
            + frame_of(kind as int, chunks@[i as int]@, mono));
        i = i + 1;
    }
    assert(cs.take(chunks.len() as int) =~= cs);
}

/// Appends the iXML chunks: those of the list, or one made of its text tags.
fn push_ixml_part(out: &mut Vec<u8>, chunks: &[MetadataChunk], mono: bool)
    ensures
        final(out)@ == old(out)@ + ixml_part(chunks_view(chunks@), mono),
{
    let ghost cs = chunks_view(chunks@);
    let mut has_ixml = false;
    let mut has_tag = false;
    let mut text: Vec<char> = Vec::new();
    let mut i: usize = 0;
    assert(cs.take(0) =~= Seq::<ChunkModel>::empty());
    while i < chunks.len()
        invariant
            0 <= i <= chunks.len(),
            cs == chunks_view(chunks@),
            has_ixml == exists|j: int| 0 <= j < i && cs[j] is IXml,
            has_tag == exists|j: int| 0 <= j < i && cs[j] is TextTag,
            text@ == tags_text(cs.take(i as int)),
        decreases chunks.len() - i,
    {
        assert(cs[i as int] == chunks@[i as int]@);
        let ghost before = text@;
        match &chunks[i] {
            MetadataChunk::IXml(_) => {
                has_ixml = true;
            },
            MetadataChunk::TextTag { key, value } => {
                has_tag = true;
                let kc = crate::text::str_chars(key.as_str());
                let vc = crate::text::str_chars(value.as_str());
                let mut j: usize = 0;
                while j < kc.len()
                    invariant
                        0 <= j <= kc.len(),
                        text@ == before + kc@.take(j as int),
                    decreases kc.len() - j,
                {
                    text.push(kc[j]);
                    assert(kc@.take(j + 1) =~= kc@.take(j as int).push(kc@[j as int]));
                    j = j + 1;
                }
                assert(kc@.take(kc.len() as int) =~= kc@);
                text.push('=');
                let ghost mid = text@;
                let mut j: usize = 0;
                while j < vc.len()
                    invariant
                        0 <= j <= vc.len(),
                        text@ == mid + vc@.take(j as int),
                    decreases vc.len() - j,
                {
                    text.push(vc[j]);
                    assert(vc@.take(j + 1) =~= vc@.take(j as int).push(vc@[j as int]));
                    j = j + 1;
                }
                assert(vc@.take(vc.len() as int) =~= vc@);
                text.push('\n');
                proof {
                    reveal_strlit("=");
                    reveal_strlit("\n");
                    assert(text@ =~= before + (key@ + "="@ + value@ + "\n"@));
                }
            },
            _ => {},
        }
        proof {
            assert(cs.take(i + 1).drop_last() =~= cs.take(i as int));
            assert(cs.take(i + 1).last() == cs[i as int]);
            if !(cs[i as int] is TextTag) {
                assert(text@ =~= before + Seq::<char>::empty());
            }
            assert(text@ == tags_text(cs.take(i + 1)));
            if cs[i as int] is IXml {
                assert(exists|j: int| 0 <= j < i + 1 && cs[j] is IXml);
            }
            if cs[i as int] is TextTag {
                assert(exists|j: int| 0 <= j < i + 1 && cs[j] is TextTag);
            }
        }
        i = i + 1;
    }
    assert(cs.take(chunks.len() as int) =~= cs);
    if has_ixml {
        push_frames(out, chunks, 1, mono);
    } else if has_tag {
        let xml = string_from_chars(&text);
        let id: [u8; 4] = [105, 88, 77, 76];
        assert(id@ =~= id_ixml());
        write_chunk(out, &id, xml.as_str().as_bytes());
    } else {
        assert(old(out)@ + Seq::<u8>::empty() =~= old(out)@);
    }
}



fn is_replaced_at(input: &[u8], p: usize) -> (b: bool)
    requires
        p + 4 <= input.len(),
    ensures
        b == is_replaced_id(input@.subrange(p as int, p + 4)),
{
    is_fourcc(input, p, 98, 101, 120, 116) || is_fourcc(input, p, 105, 88, 77, 76) || is_fourcc(
        input,
        p,
        83,
        77,
        69,
        68,
    ) || is_fourcc(input, p, 83, 77, 82, 68) || is_fourcc(input, p, 83, 77, 80, 76) || is_fourcc(
        input,
        p,
        105,
        100,
        51,
        32,
    ) || is_fourcc(input, p, 73, 68, 51, 32) || is_fourcc(input, p, 65, 80, 73, 67)
}

proof fn lemma_join_scan_assoc(
    a: Seq<u8>,
    fa: bool,
    b: Seq<u8>,
    fb: bool,
    r: Result<(Seq<u8>, bool), MetadataError>,
)
    ensures
        join_scan(a, fa, join_scan(b, fb, r)) == join_scan(a + b, fa || fb, r),
{
    match r {
        Ok((x, f)) => {
            assert(a + (b + x) =~= (a + b) + x);
        },
        Err(_) => {},
    }
}

/// Handles the chunk at `p` while embedding: appends what it becomes and
/// gives the offset of the next chunk and whether it was the `fmt ` chunk.
fn scan_one(input: &[u8], p: usize, size: u32, mono: bool, out: &mut Vec<u8>) -> (r: (u64, bool))
    requires
        input@.len() <= isize::MAX,
        p + 8 <= input@.len(),
        size == le32(input@, p + 4),
        p + 8 + size <= input@.len(),
        !scan_panics(input@, p as int, mono),
    ensures
        final(out)@.take(old(out)@.len() as int) == old(out)@,
        final(out)@.len() >= old(out)@.len(),
        r.0 == (if r.1 || !is_replaced_id(input@.subrange(p as int, p + 4)) {
            p + 8 + size
        } else {
            next_chunk(p as int, size as int)
        }),
        scan_chunks(input@, p as int, mono) == join_scan(
            final(out)@.skip(old(out)@.len() as int),
            r.1,
            scan_chunks(input@, r.0 as int, mono),
        ),
        !scan_panics(input@, r.0 as int, mono),
{
    reveal(scan_chunks);
    reveal(scan_panics);
    let end = p + 8 + size as usize;
    let ghost id = input@.subrange(p as int, p + 4);
    let ghost data = input@.subrange(p + 8, end as int);
    let ghost n = out@.len();
    if is_fourcc(input, p, 102, 109, 116, 32) {
        let d = if mono {
            patch_fmt_exec(&input[p + 8..end])
        } else {
            copy_range(input, p + 8, end)
        };
        write_chunk(out, &input[p..p + 4], &d);
        proof {
            let d2 = if mono { patch_fmt(data) } else { data };
            assert(d@ == d2);
            assert(out@.skip(n as int) =~= frame(id, d2));
            assert(out@.take(n as int) =~= old(out)@);
        }
        ((p + 8 + size as usize) as u64, true)
    } else if is_replaced_at(input, p) {
        assert(out@.skip(n as int) =~= Seq::<u8>::empty());
        assert(out@.take(n as int) =~= old(out)@);
        proof {
            match scan_chunks(input@, next_chunk(p as int, size as int), mono) {
                Ok((x, f)) => {
                    assert(Seq::<u8>::empty() + x =~= x);
                },
                Err(_) => {},
            }
        }
        ((p + 8 + size as usize) as u64 + (size % 2) as u64, false)
    } else {
        write_chunk(out, &input[p..p + 4], &input[p + 8..end]);
        proof {
            assert(out@.skip(n as int) =~= frame(id, data));
            assert(out@.take(n as int) =~= old(out)@);
        }
        ((p + 8 + size as usize) as u64, false)
    }
}

/// The file with new metadata before its RIFF size is fixed: the header,
/// the audio chunks and the metadata chunks.
fn embed_core(input: &[u8], chunks: &[MetadataChunk], mono: bool) -> (r: Result<Vec<u8>, MetadataError>)
    requires
        input@.len() <= isize::MAX,
        24 <= input@.len(),
        mono == header_mono(input@),
        !scan_panics(input@, 12, mono),
    ensures
        r matches Ok(v) ==> scan_chunks(input@, 12, mono) matches Ok((body, found)) && found && v@
            == embed_body(input@, body, chunks_view(chunks@)),
        r matches Err(e) ==> embedded(input@, chunks_view(chunks@)) == Err::<Seq<u8>, MetadataError>(e),
{
    let mut out = copy_range(input, 0, 12);
    let ghost scan_all = scan_chunks(input@, 12, mono);
    let len = input.len() as u64;
    let mut pos: u64 = 12;
    let mut found = false;
    assert(input@.subrange(0, 12) =~= input@.take(12));
    assert(out@.skip(12) =~= Seq::<u8>::empty());
    assert(join_scan(Seq::<u8>::empty(), false, scan_all) =~= scan_all) by {
        match scan_all {
            Ok((b, f)) => {
                assert(Seq::<u8>::empty() + b =~= b);
            },
            Err(_) => {},
        }
    }
    while pos < len
        invariant
            len == input@.len(),
            len <= isize::MAX,
            24 <= len,
            12 <= pos <= len + 0x1_0000_0001,
            out@.len() >= 12,
            out@.take(12) == input@.take(12),
            mono == header_mono(input@),
            scan_all == scan_chunks(input@, 12, mono),
            scan_all == join_scan(out@.skip(12), found, scan_chunks(input@, pos as int, mono)),
            !scan_panics(input@, pos as int, mono),
        ensures
            12 <= pos,
            out@.len() >= 12,
            out@.take(12) == input@.take(12),
            pos >= len || len - pos < 4,
            scan_all == join_scan(out@.skip(12), found, scan_chunks(input@, pos as int, mono)),
        decreases (if pos < len { len - pos } else { 0 }),
    {
        if len - pos < 4 {
            break;
        }
        if len - pos < 8 {
            assert(scan_chunks(input@, pos as int, mono) == Err::<(Seq<u8>, bool), MetadataError>(
                MetadataError::UnexpectedEof,
            )) by {
                reveal(scan_chunks);
            }
            return Err(MetadataError::UnexpectedEof);
        }
        let p = pos as usize;
        let size = read_le32(input, p + 4);
        if pos + 8 + size as u64 > len {
            assert(scan_chunks(input@, pos as int, mono) == Err::<(Seq<u8>, bool), MetadataError>(
                MetadataError::UnexpectedEof,
            )) by {
                reveal(scan_chunks);
            }
            return Err(MetadataError::UnexpectedEof);
        }
        let ghost before = out@;
        let (next, is_fmt) = scan_one(input, p, size, mono, &mut out);
        proof {
            let added = out@.skip(before.len() as int);
            lemma_join_scan_assoc(before.skip(12), found, added, is_fmt, scan_chunks(input@, next as int, mono));
            assert(before.skip(12) + added =~= out@.skip(12));
            assert(out@.take(12) =~= before.take(12));
        }
        found = found || is_fmt;
        pos = next;
    }
    let ghost body = out@.skip(12);
    proof {
        assert(scan_chunks(input@, pos as int, mono) == Ok::<(Seq<u8>, bool), MetadataError>((seq![], false))) by {
            reveal(scan_chunks);
        }
        assert(body + Seq::<u8>::empty() =~= body);
    }
    if !found {
        return Err(MetadataError::MissingFmt);
    }
    let ghost cs = chunks_view(chunks@);
    push_frames(&mut out, chunks, 0, mono);
    push_ixml_part(&mut out, chunks, mono);
    push_frames(&mut out, chunks, 2, mono);
    push_frames(&mut out, chunks, 3, mono);
    push_frames(&mut out, chunks, 4, mono);
    proof {
        assert(out@ =~= embed_body(input@, body, cs));
    }
    Ok(out)
}

/// Writes a WAV file with new metadata: the RIFF header and the audio chunks
/// of `input` (in a mono file the `fmt ` chunk rewritten for one channel),
/// then the chunks of `chunks`, grouped by kind, with the RIFF size fixed.
pub fn embed_metadata_chunks(input: &[u8], chunks: &[MetadataChunk]) -> (r: Result<
    Vec<u8>,
    MetadataError,
>)
    requires
        input@.len() <= isize::MAX,
        !embed_panics(input@, chunks_view(chunks@)),
    ensures
        r matches Ok(v) ==> embedded(input@, chunks_view(chunks@)) == Ok::<Seq<u8>, MetadataError>(v@),
        r matches Err(e) ==> embedded(input@, chunks_view(chunks@)) == Err::<Seq<u8>, MetadataError>(e),
{
    if input.len() < 24 {
        return Err(MetadataError::UnexpectedEof);
    }
    let channels = read_le16(input, 22);
    let mono = channels == 1;
    let out = match embed_core(input, chunks, mono) {
        Ok(v) => v,
        Err(e) => {
            return Err(e);
        },
    };
    let total = ((out.len() as u64) % 0x1_0000_0000) as u32;
    let riff_size: u32 = total - 8;
    let mut result = copy_range(&out, 0, 4);
    push_le32(&mut result, riff_size);
    let tail = copy_range(&out, 8, out.len());
    push_all(&mut result, &tail);
    assert(result@ =~= with_riff_size(out@));
    Ok(result)
}

fn fmt_patchable_exec(input: &[u8], p: usize, end: usize) -> (b: bool)
    requires
        p <= end <= input@.len(),
    ensures
        b == fmt_patchable(input@.subrange(p as int, end as int)),
{
    if end - p < 16 {
        return false;
    }
    let d = &input[p..end];
    assert(d@ =~= input@.subrange(p as int, end as int));
    let rate = read_le32(d, 4) as u64;
    let bits = read_le16(d, 14) as u64;
    let bytes = bits / 8;
    assert(rate * bytes <= 0xFFFF_FFFF * 0xFFFF) by (nonlinear_arith)
        requires
            rate <= 0xFFFF_FFFF,
            bytes <= 0xFFFF,
    ;
    rate * bytes <= 0xFFFF_FFFF
}

fn scan_would_panic(input: &[u8], mono: bool) -> (b: bool)
    requires
        input@.len() <= isize::MAX,
    ensures
        b == scan_panics(input@, 12, mono),
{
    let len = input.len() as u64;
    let mut pos: u64 = 12;
    loop
        invariant
            len == input@.len(),
            len <= isize::MAX,
            12 <= pos <= len + 0x1_0000_0001,
            scan_panics(input@, 12, mono) == scan_panics(input@, pos as int, mono),
        decreases (if pos < len { len - pos } else { 0 }),
    {
        proof {
            reveal(scan_panics);
        }
        if pos >= len || len - pos < 8 {
            return false;
        }
        let p = pos as usize;
        let size = read_le32(input, p + 4);
        if pos + 8 + size as u64 > len {
            return false;
        }
        let end = p + 8 + size as usize;
        if is_fourcc(input, p, 102, 109, 116, 32) {
            if mono && !fmt_patchable_exec(input, p + 8, end) {
                return true;
            }
            pos = end as u64;
        } else if is_replaced_at(input, p) {
            pos = end as u64 + (size % 2) as u64;
        } else {
            pos = end as u64;
        }
    }
}

/// Whether embedding metadata into `input` would panic: a mono `fmt ` chunk
/// that cannot be rewritten, or a file whose size modulo 2^32 is under 8.
pub fn embed_would_panic(input: &[u8], chunks: &[MetadataChunk]) -> (b: bool)
    requires
        input@.len() <= isize::MAX,
    ensures
        b == embed_panics(input@, chunks_view(chunks@)),
{
    if input.len() < 24 {
        return false;
    }
    let channels = read_le16(input, 22);
    let mono = channels == 1;
    if scan_would_panic(input, mono) {
        return true;
    }
    match embed_core(input, chunks, mono) {
        Ok(out) => (out.len() as u64) % 0x1_0000_0000 < 8,
        Err(_) => {
            proof {
                reveal(scan_chunks);
            }
            false
        },
    }
}

} // verus!
