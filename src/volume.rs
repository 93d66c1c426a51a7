//! WAV audio headers.

use vstd::prelude::*;
use vstd::utf8::encode_utf8;
use crate::helpers::{bytes16, bytes32, le16, le32, push_u16, push_u32, read_u16, read_u32};
use crate::text::string_from_chars;

verus! {

/// WAV file header size in bytes.
pub const HEADER_SIZE: usize = 44;

/// A WAV file's header.
pub struct WavAudioFileHeader {
    pub chunk_id: String,
    pub chunk_size: u32,
    pub format: String,
    pub sub_chunk1_id: String,
    pub sub_chunk1_size: u32,
    pub audio_format: u16,
    pub num_channels: u16,
    pub sample_rate: u32,
    pub byte_rate: u32,
    pub block_align: u16,
    pub bits_per_sample: u16,
    pub sub_chunk2_id: String,
    pub sub_chunk2_size: u32,
}

/// Four bytes at `at` read as four characters, each byte the code of one.
pub open spec fn tag_at(b: Seq<u8>, at: int) -> Seq<char> {
    Seq::new(4, |i: int| b[at + i] as char)
}

/// The bytes of a header: text tags in UTF-8, numbers lowest byte first.
pub open spec fn wav_header_bytes(h: WavAudioFileHeader) -> Seq<u8> {
    encode_utf8(h.chunk_id@) + bytes32(h.chunk_size) + encode_utf8(h.format@) + encode_utf8(h.sub_chunk1_id@)
        + bytes32(h.sub_chunk1_size) + bytes16(h.audio_format) + bytes16(h.num_channels) + bytes32(h.sample_rate)
        + bytes32(h.byte_rate) + bytes16(h.block_align) + bytes16(h.bits_per_sample) + encode_utf8(h.sub_chunk2_id@)
        + bytes32(h.sub_chunk2_size)
}

/// Reads four bytes as a text tag.
fn read_tag(b: &[u8], at: usize) -> (r: String)
    requires
        at + 4 <= b@.len(),
    ensures
        r@ == tag_at(b@, at as int),
{
    let n = b.len();
    let mut chars: Vec<char> = Vec::new();
    let mut i: usize = 0;
    while i < 4
        invariant
            n == b@.len(),
            at + 4 <= n,
            i <= 4,
            chars@ == tag_at(b@, at as int).take(i as int),
        decreases 4 - i,
    {
        chars.push(b[at + i] as char);
        assert(chars@ =~= tag_at(b@, at as int).take(i + 1));
        i = i + 1;
    }
    assert(tag_at(b@, at as int).take(4) =~= tag_at(b@, at as int));
    string_from_chars(&chars)
}

/// Appends the UTF-8 bytes of a text.
fn push_text(out: &mut Vec<u8>, s: &String)
    ensures
        final(out)@ == old(out)@ + encode_utf8(s@),
{
    let b = s.as_str().as_bytes();
    let mut i: usize = 0;
    while i < b.len()
        invariant
            b@ == encode_utf8(s@),
            i <= b@.len(),
            out@ == old(out)@ + b@.take(i as int),
        decreases b@.len() - i,
    {
        out.push(b[i]);
        assert(out@ =~= old(out)@ + b@.take(i + 1));
        i = i + 1;
    }
    assert(b@.take(i as int) =~= b@);
}

impl WavAudioFileHeader {
    /// Reads a WAV header: text tags of four characters (one per byte) and
    /// numbers lowest byte first.
    pub fn new(bytes: &[u8; HEADER_SIZE]) -> (r: Self)
        ensures
            r.chunk_id@ == tag_at(bytes@, 0),
            r.chunk_size == le32(bytes@, 4),
            r.format@ == tag_at(bytes@, 8),
            r.sub_chunk1_id@ == tag_at(bytes@, 12),
            r.sub_chunk1_size == le32(bytes@, 16),
            r.audio_format == le16(bytes@, 20),
            r.num_channels == le16(bytes@, 22),
            r.sample_rate == le32(bytes@, 24),
            r.byte_rate == le32(bytes@, 28),
            r.block_align == le16(bytes@, 32),
            r.bits_per_sample == le16(bytes@, 34),
            r.sub_chunk2_id@ == tag_at(bytes@, 36),
            r.sub_chunk2_size == le32(bytes@, 40),
    {
        let b = bytes.as_slice();
        WavAudioFileHeader {
            chunk_id: read_tag(b, 0),
            chunk_size: read_u32(b, 4),
            format: read_tag(b, 8),
            sub_chunk1_id: read_tag(b, 12),
            sub_chunk1_size: read_u32(b, 16),
            audio_format: read_u16(b, 20),
            num_channels: read_u16(b, 22),
            sample_rate: read_u32(b, 24),
            byte_rate: read_u32(b, 28),
            block_align: read_u16(b, 32),
            bits_per_sample: read_u16(b, 34),
            sub_chunk2_id: read_tag(b, 36),
            sub_chunk2_size: read_u32(b, 40),
        }
    }

    /// Writes the header: text tags in UTF-8, numbers lowest byte first.
    pub fn to_bytes(&self) -> (r: Vec<u8>)
        ensures
            r@ == wav_header_bytes(*self),
    {
        let mut bytes: Vec<u8> = Vec::new();
        push_text(&mut bytes, &self.chunk_id);
        push_u32(&mut bytes, self.chunk_size);
        push_text(&mut bytes, &self.format);
        push_text(&mut bytes, &self.sub_chunk1_id);
        push_u32(&mut bytes, self.sub_chunk1_size);
        push_u16(&mut bytes, self.audio_format);
        push_u16(&mut bytes, self.num_channels);
        push_u32(&mut bytes, self.sample_rate);
        push_u32(&mut bytes, self.byte_rate);
        push_u16(&mut bytes, self.block_align);
        push_u16(&mut bytes, self.bits_per_sample);
        push_text(&mut bytes, &self.sub_chunk2_id);
        push_u32(&mut bytes, self.sub_chunk2_size);
        assert(bytes@ =~= wav_header_bytes(*self));
        bytes
    }
}

/// A 16-bit WAV audio file: its header and samples.
pub struct WavAudioFile16 {
    pub header: WavAudioFileHeader,
    pub data: Vec<i16>,
}

impl WavAudioFile16 {
    /// Builds the file from its header bytes and sample bytes; `None` unless
    /// the header says 16 bits per sample.
    pub fn from_bytes(header_bytes: &[u8; HEADER_SIZE], samples: &Vec<u8>) -> (r: Option<WavAudioFile16>)
        ensures
            r is Some <==> le16(header_bytes@, 34) == 16,
            r matches Some(f) ==> f.header.chunk_size == le32(header_bytes@, 4) && f.data@.len() == samples@.len() / 2,
    {
        let header = WavAudioFileHeader::new(header_bytes);
        if header.bits_per_sample != 16 {
            return None;
        }
        let data = samples_from_bytes(samples);
        Some(WavAudioFile16 { header, data })
    }

    /// Checks if the given file name ends in `.wav` (or is just `wav`).
    pub fn is_wav_filename(filename: &str) -> (r: bool)
        ensures
            r == (crate::img::bmp::extension(filename@) == seq!['w', 'a', 'v']),
    {
        is_wav_filename(filename)
    }
}

/// Checks if the given file name ends in `.wav` (or is just `wav`).
pub fn is_wav_filename(filename: &str) -> (r: bool)
    ensures
        r == (crate::img::bmp::extension(filename@) == seq!['w', 'a', 'v']),
{
    let ext = crate::img::bmp::file_extension(filename);
    let r = ext.len() == 3 && ext[0] == 'w' && ext[1] == 'a' && ext[2] == 'v';
    if r {
        assert(ext@ =~= seq!['w', 'a', 'v']);
    }
    r
}

/// The 16-bit samples of little-endian sample bytes; a last odd byte is ignored.
pub fn samples_from_bytes(buffer: &Vec<u8>) -> (r: Vec<i16>)
    ensures
        r@.len() == buffer@.len() / 2,
        forall|k: int| 0 <= k < r@.len() ==> #[trigger] r@[k] as int == (if le16(buffer@, 2 * k) < 0x8000 {
            le16(buffer@, 2 * k)
        } else {
            le16(buffer@, 2 * k) - 0x1_0000
        }),
{
    let mut data: Vec<i16> = Vec::new();
    let mut i: usize = 0;
    while i + 1 < buffer.len()
        invariant
            i == 2 * data@.len(),
            i <= buffer@.len(),
            data@.len() <= buffer@.len() / 2,
            i + 1 >= buffer@.len() ==> data@.len() == buffer@.len() / 2,
            forall|k: int| 0 <= k < data@.len() ==> #[trigger] data@[k] as int == (if le16(buffer@, 2 * k) < 0x8000 {
                le16(buffer@, 2 * k)
            } else {
                le16(buffer@, 2 * k) - 0x1_0000
            }),
        decreases buffer@.len() - i,
    {
        let v = read_u16(buffer.as_slice(), i);
        let s: i16 = if v < 0x8000 { v as i16 } else { (v as i32 - 0x1_0000) as i16 };
        data.push(s);
        i = i + 2;
    }
    data
}

} // verus!
