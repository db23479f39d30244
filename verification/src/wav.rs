//! RIFF/WAVE chunk walking and the canonical 44-byte PCM WAV layout.
use vstd::prelude::*;
use crate::text::push_char;

verus! {

/// Errors raised while reading a RIFF/WAVE container.
#[derive(Clone, Debug)]
pub enum ConvertError {
    InvalidWav(String),
    UnsupportedFormat(String),
}

/// Format and data-chunk facts read from a RIFF/WAVE container.
#[derive(Clone, Debug)]
pub struct WavInfo {
    pub channels: u16,
    pub sample_rate: u32,
    pub bits_per_sample: u16,
    /// Byte offset where the raw PCM data begins.
    pub data_offset: usize,
    /// Size of the raw PCM data in bytes.
    pub data_size: u32,
}

/// Mathematical model of a successful parse.
pub struct WavInfoModel {
    pub channels: u16,
    pub sample_rate: u32,
    pub bits_per_sample: u16,
    pub data_offset: int,
    pub data_size: u32,
}

/// Why a container is rejected.
pub enum RiffFault {
    TooSmall,
    MissingRiffTag,
    MissingWaveTag,
    FmtTooSmall,
    NotPcm(u16),
    NoFmtChunk,
    NoDataChunk,
    /// The fmt chunk runs past the end of the buffer; reading it would index out of bounds.
    FmtTruncated,
}

/// Fields collected while walking the chunk list.
pub struct RiffFields {
    pub channels: Option<u16>,
    pub sample_rate: Option<u32>,
    pub bits_per_sample: Option<u16>,
    pub data_offset: Option<int>,
    pub data_size: Option<u32>,
}

/// Outcome of walking the chunk list.
pub enum RiffWalk {
    Fail(RiffFault),
    Done(RiffFields),
}

/// Little-endian value of the two bytes at `off`.
pub open spec fn le16(b: Seq<u8>, off: int) -> int {
    b[off] as int + 256 * (b[off + 1] as int)
}

/// Little-endian value of the four bytes at `off`.
pub open spec fn le32(b: Seq<u8>, off: int) -> int {
    b[off] as int + 256 * (b[off + 1] as int) + 65536 * (b[off + 2] as int) + 16777216 * (
    b[off + 3] as int)
}

/// Two little-endian bytes of `v`.
pub open spec fn le16_bytes(v: int) -> Seq<u8> {
    seq![(v % 256) as u8, ((v / 256) % 256) as u8]
}

/// Four little-endian bytes of `v`.
pub open spec fn le32_bytes(v: int) -> Seq<u8> {
    seq![
        (v % 256) as u8,
        ((v / 256) % 256) as u8,
        ((v / 65536) % 256) as u8,
        ((v / 16777216) % 256) as u8,
    ]
}

pub open spec fn tag_riff() -> Seq<u8> {
    seq![0x52u8, 0x49, 0x46, 0x46]
}

pub open spec fn tag_wave() -> Seq<u8> {
    seq![0x57u8, 0x41, 0x56, 0x45]
}

pub open spec fn tag_fmt() -> Seq<u8> {
    seq![0x66u8, 0x6d, 0x74, 0x20]
}

pub open spec fn tag_data() -> Seq<u8> {
    seq![0x64u8, 0x61, 0x74, 0x61]
}

/// Chunk sizes are word aligned: an odd size is followed by one pad byte.
pub open spec fn padded(size: int) -> int {
    size + size % 2
}

pub open spec fn no_fields() -> RiffFields {
    RiffFields {
        channels: None,
        sample_rate: None,
        bits_per_sample: None,
        data_offset: None,
        data_size: None,
    }
}

/// Walks the chunk list starting at `pos`, as long as a whole chunk header fits.
pub open spec fn riff_walk(d: Seq<u8>, pos: int, f: RiffFields) -> RiffWalk
    decreases (if pos <= d.len() {
        d.len() - pos
    } else {
        0
    }),
{
    if pos < 0 || pos + 8 > d.len() {
        RiffWalk::Done(f)
    } else {
        let id = d.subrange(pos, pos + 4);
        let size = le32(d, pos + 4);
        let start = pos + 8;
        let next = start + padded(size);
        if id == tag_fmt() {
            if size < 16 {
                RiffWalk::Fail(RiffFault::FmtTooSmall)
            } else if start + 2 > d.len() {
                RiffWalk::Fail(RiffFault::FmtTruncated)
            } else if le16(d, start) != 1 && le16(d, start) != 0xFFFE {
                RiffWalk::Fail(RiffFault::NotPcm(le16(d, start) as u16))
            } else if start + 16 > d.len() {
                RiffWalk::Fail(RiffFault::FmtTruncated)
            } else {
                riff_walk(
                    d,
                    next,
                    RiffFields {
                        channels: Some(le16(d, start + 2) as u16),
                        sample_rate: Some(le32(d, start + 4) as u32),
                        bits_per_sample: Some(le16(d, start + 14) as u16),
                        ..f
                    },
                )
            }
        } else if id == tag_data() {
            riff_walk(
                d,
                next,
                RiffFields { data_offset: Some(start), data_size: Some(size as u32), ..f },
            )
        } else {
            riff_walk(d, next, f)
        }
    }
}

/// What parsing `d` yields.
pub open spec fn riff_outcome(d: Seq<u8>) -> Result<WavInfoModel, RiffFault> {
    if d.len() < 12 {
        Err(RiffFault::TooSmall)
    } else if d.subrange(0, 4) != tag_riff() {
        Err(RiffFault::MissingRiffTag)
    } else if d.subrange(8, 12) != tag_wave() {
        Err(RiffFault::MissingWaveTag)
    } else {
        match riff_walk(d, 12, no_fields()) {
            RiffWalk::Fail(k) => Err(k),
            RiffWalk::Done(f) => {
                if f.channels is None || f.sample_rate is None || f.bits_per_sample is None {
                    Err(RiffFault::NoFmtChunk)
                } else if f.data_offset is None || f.data_size is None {
                    Err(RiffFault::NoDataChunk)
                } else {
                    Ok(
                        WavInfoModel {
                            channels: f.channels->0,
                            sample_rate: f.sample_rate->0,
                            bits_per_sample: f.bits_per_sample->0,
                            data_offset: f.data_offset->0,
                            data_size: f.data_size->0,
                        },
                    )
                }
            },
        }
    }
}

/// Parsing `d` never reads past its end (a truncated fmt chunk would).
pub open spec fn riff_reads_in_bounds(d: Seq<u8>) -> bool {
    !(riff_outcome(d) matches Err(RiffFault::FmtTruncated))
}

/// Uppercase hexadecimal digit of `v` (0..16).
pub open spec fn hex_digit(v: int) -> char {
    if v < 10 {
        ((v + 48) as u8) as char
    } else {
        ((v + 55) as u8) as char
    }
}

/// `0x` followed by four uppercase hex digits.
pub open spec fn hex4(v: u16) -> Seq<char> {
    seq![
        '0',
        'x',
        hex_digit((v as int / 4096) % 16),
        hex_digit((v as int / 256) % 16),
        hex_digit((v as int / 16) % 16),
        hex_digit(v as int % 16),
    ]
}

/// The message carried by each rejection.
pub open spec fn fault_message(k: RiffFault) -> Seq<char> {
    match k {
        RiffFault::TooSmall => "file too small for RIFF header"@,
        RiffFault::MissingRiffTag => "missing RIFF tag"@,
        RiffFault::MissingWaveTag => "missing WAVE form type"@,
        RiffFault::FmtTooSmall => "fmt chunk too small"@,
        RiffFault::NotPcm(t) => "format tag "@ + hex4(t) + " is not PCM"@,
        RiffFault::NoFmtChunk => "no fmt chunk found"@,
        RiffFault::NoDataChunk => "no data chunk found"@,
        RiffFault::FmtTruncated => Seq::empty(),
    }
}

/// The error value that stands for a rejection.
pub open spec fn error_matches(e: ConvertError, k: RiffFault) -> bool {
    match k {
        RiffFault::NotPcm(_) => e matches ConvertError::UnsupportedFormat(m) && m@ == fault_message(
            k,
        ),
        _ => e matches ConvertError::InvalidWav(m) && m@ == fault_message(k),
    }
}

/// Reads a little-endian `u16` at byte offset `off`.
pub fn read_u16_le(b: &[u8], off: usize) -> (r: u16)
    requires
        off + 2 <= b@.len(),
    ensures
        r as int == le16(b@, off as int),
{
    let lo = b[off] as u16;
    let hi = b[off + 1] as u16;
    lo + hi * 256
}

/// Reads a little-endian `u32` at byte offset `off`.
pub fn read_u32_le(b: &[u8], off: usize) -> (r: u32)
    requires
        off + 4 <= b@.len(),
    ensures
        r as int == le32(b@, off as int),
{
    let b0 = b[off] as u32;
    let b1 = b[off + 1] as u32;
    let b2 = b[off + 2] as u32;
    let b3 = b[off + 3] as u32;
    b0 + b1 * 256 + b2 * 65536 + b3 * 16777216
}

fn hex_char(v: u16) -> (c: char)
    requires
        v < 16,
    ensures
        c == hex_digit(v as int),
{
    let b: u8 = if v < 10 {
        (v + 48) as u8
    } else {
        (v + 55) as u8
    };
    b as char
}

fn not_pcm_message(tag: u16) -> (m: String)
    ensures
        m@ == fault_message(RiffFault::NotPcm(tag)),
{
    let mut m = String::from_str("format tag 0x");
    push_char(&mut m, hex_char((tag / 4096) % 16));
    push_char(&mut m, hex_char((tag / 256) % 16));
    push_char(&mut m, hex_char((tag / 16) % 16));
    push_char(&mut m, hex_char(tag % 16));
    m.append(" is not PCM");
    proof {
        reveal_strlit("format tag 0x");
        reveal_strlit("format tag ");
        assert(m@ =~= fault_message(RiffFault::NotPcm(tag)));
    }
    m
}

fn invalid(msg: &str) -> (e: ConvertError)
    ensures
        e matches ConvertError::InvalidWav(m) && m@ == msg@,
{
    ConvertError::InvalidWav(String::from_str(msg))
}

fn bytes_eq4(d: &[u8], pos: usize, t: [u8; 4]) -> (r: bool)
    requires
        pos + 4 <= d@.len(),
    ensures
        r == (d@.subrange(pos as int, pos + 4) == t@),
{
    let r = d[pos] == t[0] && d[pos + 1] == t[1] && d[pos + 2] == t[2] && d[pos + 3] == t[3];
    proof {
        if r {
            assert(d@.subrange(pos as int, pos + 4) =~= t@);
        } else {
            if d@.subrange(pos as int, pos + 4) == t@ {
                assert(d@.subrange(pos as int, pos + 4)[0] == t@[0]);
                assert(d@.subrange(pos as int, pos + 4)[1] == t@[1]);
                assert(d@.subrange(pos as int, pos + 4)[2] == t@[2]);
                assert(d@.subrange(pos as int, pos + 4)[3] == t@[3]);
            }
        }
    }
    r
}

/// Walks the RIFF/WAV chunk structure and extracts format + data info.
///
/// Used for both real WAV files and Wwise WEM containers, which share the
/// RIFF chunk layout (fmt + data sub-chunks).
pub fn parse_riff(data: &[u8]) -> (r: Result<WavInfo, ConvertError>)
    requires
        riff_reads_in_bounds(data@),
    ensures
        match riff_outcome(data@) {
            Ok(m) => r matches Ok(info) && info.channels == m.channels && info.sample_rate
                == m.sample_rate && info.bits_per_sample == m.bits_per_sample && info.data_offset
                == m.data_offset && info.data_size == m.data_size,
            Err(k) => r matches Err(e) && error_matches(e, k),
        },
{
    if data.len() < 12 {
        return Err(invalid("file too small for RIFF header"));
    }
    if !bytes_eq4(data, 0, [0x52u8, 0x49, 0x46, 0x46]) {
        proof {
            assert([0x52u8, 0x49, 0x46, 0x46]@ =~= tag_riff());
        }
        return Err(invalid("missing RIFF tag"));
    }
    if !bytes_eq4(data, 8, [0x57u8, 0x41, 0x56, 0x45]) {
        proof {
            assert([0x57u8, 0x41, 0x56, 0x45]@ =~= tag_wave());
        }
        return Err(invalid("missing WAVE form type"));
    }
    proof {
        assert([0x52u8, 0x49, 0x46, 0x46]@ =~= tag_riff());
        assert([0x57u8, 0x41, 0x56, 0x45]@ =~= tag_wave());
        assert([0x66u8, 0x6d, 0x74, 0x20]@ =~= tag_fmt());
        assert([0x64u8, 0x61, 0x74, 0x61]@ =~= tag_data());
    }
    let mut channels: Option<u16> = None;
    let mut sample_rate: Option<u32> = None;
    let mut bits_per_sample: Option<u16> = None;
    let mut data_offset: Option<usize> = None;
    let mut data_size: Option<u32> = None;

    let mut pos: usize = 12;
    let ghost whole = riff_walk(data@, 12, no_fields());
    loop
        invariant
            12 <= pos <= data@.len(),
            data@.len() >= 12,
            data@.subrange(0, 4) == tag_riff(),
            data@.subrange(8, 12) == tag_wave(),
            [0x66u8, 0x6d, 0x74, 0x20]@ =~= tag_fmt(),
            [0x64u8, 0x61, 0x74, 0x61]@ =~= tag_data(),
            whole == riff_walk(data@, 12, no_fields()),
            whole == riff_walk(
                data@,
                pos as int,
                RiffFields {
                    channels,
                    sample_rate,
                    bits_per_sample,
                    data_offset: match data_offset {
                        Some(o) => Some(o as int),
                        None => None,
                    },
                    data_size,
                },
            ),
            !(whole matches RiffWalk::Fail(RiffFault::FmtTruncated)),
        ensures
            whole == RiffWalk::Done(
                RiffFields {
                    channels,
                    sample_rate,
                    bits_per_sample,
                    data_offset: match data_offset {
                        Some(o) => Some(o as int),
                        None => None,
                    },
                    data_size,
                },
            ),
        decreases data@.len() - pos,
    {
        if data.len() - pos < 8 {
            break;
        }
        let chunk_size = read_u32_le(data, pos + 4);
        let chunk_data_start = pos + 8;
        let ghost f0 = RiffFields {
            channels,
            sample_rate,
            bits_per_sample,
            data_offset: match data_offset {
                Some(o) => Some(o as int),
                None => None,
            },
            data_size,
        };
        assert(whole == riff_walk(data@, pos as int, f0));
        if bytes_eq4(data, pos, [0x66u8, 0x6d, 0x74, 0x20]) {
            if chunk_size < 16 {
                assert(whole == RiffWalk::Fail(RiffFault::FmtTooSmall));
                return Err(invalid("fmt chunk too small"));
            }
            let format_tag = read_u16_le(data, chunk_data_start);
            // 1 = PCM, 0xFFFE = WAVE_FORMAT_EXTENSIBLE (PCM sub-type)
            if format_tag != 1 && format_tag != 0xFFFE {
                assert(whole == RiffWalk::Fail(RiffFault::NotPcm(format_tag)));
                return Err(ConvertError::UnsupportedFormat(not_pcm_message(format_tag)));
            }
            channels = Some(read_u16_le(data, chunk_data_start + 2));
            sample_rate = Some(read_u32_le(data, chunk_data_start + 4));
            bits_per_sample = Some(read_u16_le(data, chunk_data_start + 14));
        } else if bytes_eq4(data, pos, [0x64u8, 0x61, 0x74, 0x61]) {
            data_offset = Some(chunk_data_start);
            data_size = Some(chunk_size);
        }
        // Advance to next chunk (sizes are word-aligned in RIFF)

        let pad: u32 = chunk_size % 2;
        let rest = data.len() - chunk_data_start;
        if (chunk_size as u64) + (pad as u64) > rest as u64 {
            proof {
                let f1 = RiffFields {
                    channels,
                    sample_rate,
                    bits_per_sample,
                    data_offset: match data_offset {
                        Some(o) => Some(o as int),
                        None => None,
                    },
                    data_size,
                };
                let next = chunk_data_start + padded(chunk_size as int);
                assert(whole == riff_walk(data@, next, f1));
                assert(riff_walk(data@, next, f1) == RiffWalk::Done(f1));
            }
            break;
        }
        pos = chunk_data_start + chunk_size as usize + pad as usize;
    }
    let channels = match channels {
        Some(c) => c,
        None => return Err(invalid("no fmt chunk found")),
    };
    let sample_rate = match sample_rate {
        Some(c) => c,
        None => return Err(invalid("no fmt chunk found")),
    };
    let bits_per_sample = match bits_per_sample {
        Some(c) => c,
        None => return Err(invalid("no fmt chunk found")),
    };
    let data_offset = match data_offset {
        Some(c) => c,
        None => return Err(invalid("no data chunk found")),
    };
    let data_size = match data_size {
        Some(c) => c,
        None => return Err(invalid("no data chunk found")),
    };
    Ok(WavInfo { channels, sample_rate, bits_per_sample, data_offset, data_size })
}


/// Whether parsing `data` stays inside it: false exactly when a `fmt ` chunk header
/// announces more bytes than the file still holds before the format fields are read.
pub fn riff_in_bounds(data: &[u8]) -> (r: bool)
    ensures
        r == riff_reads_in_bounds(data@),
{
    if data.len() < 12 {
        return true;
    }
    proof {
        assert([0x52u8, 0x49, 0x46, 0x46]@ =~= tag_riff());
        assert([0x57u8, 0x41, 0x56, 0x45]@ =~= tag_wave());
        assert([0x66u8, 0x6d, 0x74, 0x20]@ =~= tag_fmt());
        assert([0x64u8, 0x61, 0x74, 0x61]@ =~= tag_data());
    }
    if !bytes_eq4(data, 0, [0x52u8, 0x49, 0x46, 0x46]) {
        return true;
    }
    if !bytes_eq4(data, 8, [0x57u8, 0x41, 0x56, 0x45]) {
        return true;
    }
    let mut pos: usize = 12;
    let ghost mut f = no_fields();
    let ghost whole = riff_walk(data@, 12, no_fields());
    loop
        invariant
            12 <= pos <= data@.len(),
            data@.len() >= 12,
            data@.subrange(0, 4) == tag_riff(),
            data@.subrange(8, 12) == tag_wave(),
            [0x66u8, 0x6d, 0x74, 0x20]@ =~= tag_fmt(),
            [0x64u8, 0x61, 0x74, 0x61]@ =~= tag_data(),
            whole == riff_walk(data@, 12, no_fields()),
            whole == riff_walk(data@, pos as int, f),
        decreases data@.len() - pos,
    {
        if data.len() - pos < 8 {
            return true;
        }
        let chunk_size = read_u32_le(data, pos + 4);
        let start = pos + 8;
        if bytes_eq4(data, pos, [0x66u8, 0x6d, 0x74, 0x20]) {
            if chunk_size < 16 {
                return true;
            }
            if data.len() - start < 2 {
                return false;
            }
            let format_tag = read_u16_le(data, start);
            if format_tag != 1 && format_tag != 0xFFFE {
                return true;
            }
            if data.len() - start < 16 {
                return false;
            }
            proof {
                f = RiffFields {
                    channels: Some(le16(data@, start + 2) as u16),
                    sample_rate: Some(le32(data@, start + 4) as u32),
                    bits_per_sample: Some(le16(data@, start + 14) as u16),
                    ..f
                };
            }
        } else if bytes_eq4(data, pos, [0x64u8, 0x61, 0x74, 0x61]) {
            proof {
                f = RiffFields { data_offset: Some(start as int), data_size: Some(chunk_size), ..f };
            }
        }
        let pad: u32 = chunk_size % 2;
        let rest = data.len() - start;
        if (chunk_size as u64) + (pad as u64) > rest as u64 {
            proof {
                let next = start + padded(chunk_size as int);
                assert(riff_walk(data@, next, f) == RiffWalk::Done(f));
            }
            return true;
        }
        pos = start + chunk_size as usize + pad as usize;
    }
}

/// Bytes of the canonical 44-byte-header PCM WAV file around `pcm`.
#[verifier::opaque]
pub open spec fn canonical_wav(pcm: Seq<u8>, channels: u16, sample_rate: u32, bits_per_sample: u16) -> Seq<u8> {
    let bytes_per_sample = bits_per_sample as int / 8;
    let byte_rate = sample_rate as int * channels as int * bytes_per_sample;
    let block_align = channels as int * bytes_per_sample;
    let data_size = pcm.len() as int % 0x1_0000_0000;
    tag_riff() + le32_bytes(36 + data_size) + tag_wave() + tag_fmt() + le32_bytes(16) + le16_bytes(1)
        + le16_bytes(channels as int) + le32_bytes(sample_rate as int) + le32_bytes(byte_rate)
        + le16_bytes(block_align) + le16_bytes(bits_per_sample as int) + tag_data()
        + le32_bytes(data_size) + pcm
}

fn push_le16(out: &mut Vec<u8>, v: u16)
    ensures
        final(out)@ == old(out)@ + le16_bytes(v as int),
{
    out.push((v % 256) as u8);
    out.push(((v / 256) % 256) as u8);
    proof {
        assert(final(out)@ =~= old(out)@ + le16_bytes(v as int));
    }
}

fn push_le32(out: &mut Vec<u8>, v: u32)
    ensures
        final(out)@ == old(out)@ + le32_bytes(v as int),
{
    out.push((v % 256) as u8);
    out.push(((v / 256) % 256) as u8);
    out.push(((v / 65536) % 256) as u8);
    out.push(((v / 16777216) % 256) as u8);
    proof {
        assert(final(out)@ =~= old(out)@ + le32_bytes(v as int));
    }
}

fn push_tag(out: &mut Vec<u8>, t: [u8; 4])
    ensures
        final(out)@ == old(out)@ + t@,
{
    out.push(t[0]);
    out.push(t[1]);
    out.push(t[2]);
    out.push(t[3]);
    proof {
        assert(final(out)@ =~= old(out)@ + t@);
    }
}

/// Emit a canonical 44-byte PCM WAV file from raw PCM bytes plus format metadata.
pub fn write_canonical_wav(pcm: &[u8], channels: u16, sample_rate: u32, bits_per_sample: u16) -> (out: Vec<u8>)
    requires
        sample_rate as int * channels as int <= u32::MAX,
        sample_rate as int * channels as int * (bits_per_sample as int / 8) <= u32::MAX,
        channels as int * (bits_per_sample as int / 8) <= u16::MAX,
        pcm@.len() as int % 0x1_0000_0000 + 36 <= u32::MAX,
    ensures
        out@ == canonical_wav(pcm@, channels, sample_rate, bits_per_sample),
{
    let bytes_per_sample: u32 = bits_per_sample as u32 / 8;
    let byte_rate: u32 = sample_rate * channels as u32 * bytes_per_sample;
    let block_align: u16 = channels * bytes_per_sample as u16;
    let data_size: u32 = (pcm.len() as u64 % 0x1_0000_0000u64) as u32;
    let riff_size: u32 = 36 + data_size;

    let mut out: Vec<u8> = Vec::new();
    push_tag(&mut out, [0x52u8, 0x49, 0x46, 0x46]);
    push_le32(&mut out, riff_size);
    push_tag(&mut out, [0x57u8, 0x41, 0x56, 0x45]);
    push_tag(&mut out, [0x66u8, 0x6d, 0x74, 0x20]);
    push_le32(&mut out, 16);
    push_le16(&mut out, 1);  // PCM format
    push_le16(&mut out, channels);
    push_le32(&mut out, sample_rate);
    push_le32(&mut out, byte_rate);
    push_le16(&mut out, block_align);
    push_le16(&mut out, bits_per_sample);
    push_tag(&mut out, [0x64u8, 0x61, 0x74, 0x61]);
    push_le32(&mut out, data_size);
    let ghost before = out@;
    let mut i: usize = 0;
    while i < pcm.len()
        invariant
            i <= pcm@.len(),
            out@ == before + pcm@.subrange(0, i as int),
        decreases pcm@.len() - i,
    {
        out.push(pcm[i]);
        i = i + 1;
        proof {
            assert(out@ =~= before + pcm@.subrange(0, i as int));
        }
    }
    proof {
        reveal(canonical_wav);
        assert(pcm@.subrange(0, pcm@.len() as int) =~= pcm@);
        assert([0x52u8, 0x49, 0x46, 0x46]@ =~= tag_riff());
        assert([0x57u8, 0x41, 0x56, 0x45]@ =~= tag_wave());
        assert([0x66u8, 0x6d, 0x74, 0x20]@ =~= tag_fmt());
        assert([0x64u8, 0x61, 0x74, 0x61]@ =~= tag_data());
    }
    out
}


proof fn lemma_le32_bytes(v: u32)
    ensures
        le32(le32_bytes(v as int), 0) == v,
{
    let b = le32_bytes(v as int);
    assert(v % 256 + 256 * ((v / 256) % 256) + 65536 * ((v / 65536) % 256) + 16777216 * ((v
        / 16777216) % 256) == v) by (bit_vector);
    assert(b[0] as int == v % 256);
    assert(b[1] as int == (v / 256) % 256);
    assert(b[2] as int == (v / 65536) % 256);
    assert(b[3] as int == (v / 16777216) % 256);
}

proof fn lemma_le16_bytes(v: u16)
    ensures
        le16(le16_bytes(v as int), 0) == v,
{
    let b = le16_bytes(v as int);
    assert(v % 256 + 256 * ((v / 256) % 256) == v) by (bit_vector);
    assert(b[0] as int == v % 256);
    assert(b[1] as int == (v / 256) % 256);
}

/// The canonical WAV file, field by field: `RIFF`, the RIFF size (36 plus the PCM size),
/// `WAVE`, a 16-byte `fmt ` chunk (PCM format 1, channels, sample rate, byte rate, block
/// align, bits per sample), then `data` with the PCM size and the PCM bytes; every number
/// little-endian at its fixed offset.
pub proof fn law_canonical_wav_header(
    pcm: Seq<u8>,
    channels: u16,
    sample_rate: u32,
    bits_per_sample: u16,
)
    requires
        pcm.len() + 36 <= u32::MAX,
    ensures
        ({
            let d = canonical_wav(pcm, channels, sample_rate, bits_per_sample);
            let byte_rate = sample_rate as int * channels as int * (bits_per_sample as int / 8);
            let block_align = channels as int * (bits_per_sample as int / 8);
            &&& d.len() == 44 + pcm.len()
            &&& d.subrange(0, 4) == tag_riff()
            &&& le32(d, 4) == 36 + pcm.len()
            &&& byte_rate <= u32::MAX ==> le32(d, 28) == byte_rate
            &&& block_align <= u16::MAX ==> le16(d, 32) == block_align
            &&& d.subrange(44, d.len() as int) == pcm
            &&& d.subrange(8, 12) == tag_wave()
            &&& d.subrange(12, 16) == tag_fmt()
            &&& le32(d, 16) == 16
            &&& le16(d, 20) == 1
            &&& le16(d, 22) == channels
            &&& le32(d, 24) == sample_rate
            &&& le16(d, 34) == bits_per_sample
            &&& d.subrange(36, 40) == tag_data()
            &&& le32(d, 40) == pcm.len()
        }),
{
    reveal(canonical_wav);
    let d = canonical_wav(pcm, channels, sample_rate, bits_per_sample);
    let n = pcm.len() as int;
    assert(n % 0x1_0000_0000 == n);
    let bps = bits_per_sample as int / 8;
    let p1 = tag_riff() + le32_bytes(36 + n);
    let p2 = p1 + tag_wave();
    let p3 = p2 + tag_fmt();
    let p4 = p3 + le32_bytes(16);
    let p5 = p4 + le16_bytes(1);
    let p6 = p5 + le16_bytes(channels as int);
    let p7 = p6 + le32_bytes(sample_rate as int);
    let p8 = p7 + le32_bytes(sample_rate as int * channels as int * bps);
    let p9 = p8 + le16_bytes(channels as int * bps);
    let p10 = p9 + le16_bytes(bits_per_sample as int);
    let p11 = p10 + tag_data();
    let p12 = p11 + le32_bytes(n);
    assert(d == p12 + pcm);
    assert(p12.len() == 44);
    assert(d.subrange(0, 44) =~= p12);
    assert(p12.subrange(0, 40) =~= p11);
    assert(p11.subrange(36, 40) =~= tag_data());
    assert(p11.subrange(0, 36) =~= p10);
    assert(p10.subrange(0, 34) =~= p9);
    assert(p9.subrange(0, 28) =~= p7);
    assert(p7.subrange(0, 24) =~= p6);
    assert(p6.subrange(0, 22) =~= p5);
    assert(p5.subrange(0, 20) =~= p4);
    assert(p4.subrange(0, 16) =~= p3);
    assert(p3.subrange(12, 16) =~= tag_fmt());
    assert(p3.subrange(0, 12) =~= p2);
    assert(p2.subrange(8, 12) =~= tag_wave());
    assert(p2.subrange(0, 4) =~= tag_riff());
    assert(d.subrange(0, 4) =~= tag_riff());
    assert(d.subrange(8, 12) =~= tag_wave());
    assert(d.subrange(12, 16) =~= tag_fmt());
    assert(d.subrange(36, 40) =~= tag_data());
    lemma_le32_bytes(16);
    lemma_le16_bytes(1);
    lemma_le16_bytes(channels);
    lemma_le32_bytes(sample_rate);
    lemma_le16_bytes(bits_per_sample);
    lemma_le32_bytes(n as u32);
    lemma_le32_bytes((36 + n) as u32);
    if sample_rate as int * channels as int * bps <= u32::MAX {
        lemma_le32_bytes((sample_rate as int * channels as int * bps) as u32);
    }
    if channels as int * bps <= u16::MAX {
        lemma_le16_bytes((channels as int * bps) as u16);
    }
    assert(d[4] == p1[4] && d[5] == p1[5] && d[6] == p1[6] && d[7] == p1[7]);
    assert(d[28] == p8[28] && d[29] == p8[29] && d[30] == p8[30] && d[31] == p8[31]);
    assert(d[32] == p9[32] && d[33] == p9[33]);
    assert(d.subrange(44, d.len() as int) =~= pcm);
    assert(d[16] == p4[16] && d[17] == p4[17] && d[18] == p4[18] && d[19] == p4[19]);
    assert(d[20] == p5[20] && d[21] == p5[21]);
    assert(d[22] == p6[22] && d[23] == p6[23]);
    assert(d[24] == p7[24] && d[25] == p7[25] && d[26] == p7[26] && d[27] == p7[27]);
    assert(d[34] == p10[34] && d[35] == p10[35]);
    assert(d[40] == p12[40] && d[41] == p12[41] && d[42] == p12[42] && d[43] == p12[43]);
}

/// Reading back a canonical WAV yields the format it was written with, with the PCM
/// starting right after the 44-byte header.
pub proof fn law_canonical_wav_round_trip(
    pcm: Seq<u8>,
    channels: u16,
    sample_rate: u32,
    bits_per_sample: u16,
)
    requires
        pcm.len() + 36 <= u32::MAX,
    ensures
        riff_reads_in_bounds(canonical_wav(pcm, channels, sample_rate, bits_per_sample)),
        riff_outcome(canonical_wav(pcm, channels, sample_rate, bits_per_sample)) == Ok::<
            WavInfoModel,
            RiffFault,
        >(
            WavInfoModel {
                channels,
                sample_rate,
                bits_per_sample,
                data_offset: 44,
                data_size: pcm.len() as u32,
            },
        ),
{
    let d = canonical_wav(pcm, channels, sample_rate, bits_per_sample);
    let n = pcm.len() as int;
    law_canonical_wav_header(pcm, channels, sample_rate, bits_per_sample);
    let f1 = RiffFields {
        channels: Some(channels),
        sample_rate: Some(sample_rate),
        bits_per_sample: Some(bits_per_sample),
        data_offset: None,
        data_size: None,
    };
    let f2 = RiffFields {
        channels: Some(channels),
        sample_rate: Some(sample_rate),
        bits_per_sample: Some(bits_per_sample),
        data_offset: Some(44),
        data_size: Some(n as u32),
    };
    assert(riff_walk(d, 44 + padded(n), f2) == RiffWalk::Done(f2));
    assert(riff_walk(d, 36, f1) == riff_walk(d, 44 + padded(n), f2));
    assert(riff_walk(d, 12, no_fields()) == riff_walk(d, 36, f1));
}

/// A recorded `data` chunk lies inside `d`, after the 12-byte RIFF header: its tag sits
/// 8 bytes before the recorded offset and its size 4 bytes before.
pub open spec fn data_fields_ok(d: Seq<u8>, f: RiffFields) -> bool {
    f.data_offset matches Some(o) ==> 20 <= o <= d.len() && d.subrange(o - 8, o - 4) == tag_data()
        && f.data_size == Some(le32(d, o - 4) as u32)
}

proof fn lemma_walk_data(d: Seq<u8>, pos: int, f: RiffFields)
    requires
        pos >= 12,
        data_fields_ok(d, f),
    ensures
        riff_walk(d, pos, f) matches RiffWalk::Done(g) ==> data_fields_ok(d, g),
    decreases (if pos <= d.len() {
        d.len() - pos
    } else {
        0
    }),
{
    if pos + 8 <= d.len() {
        let id = d.subrange(pos, pos + 4);
        let size = le32(d, pos + 4);
        let start = pos + 8;
        let next = start + padded(size);
        assert(size >= 0);
        if id == tag_fmt() {
            if size >= 16 && start + 2 <= d.len() && (le16(d, start) == 1 || le16(d, start) == 0xFFFE)
                && start + 16 <= d.len() {
                lemma_walk_data(
                    d,
                    next,
                    RiffFields {
                        channels: Some(le16(d, start + 2) as u16),
                        sample_rate: Some(le32(d, start + 4) as u32),
                        bits_per_sample: Some(le16(d, start + 14) as u16),
                        ..f
                    },
                );
            }
        } else if id == tag_data() {
            assert(start - 8 == pos);
            assert(d.subrange(start - 8, start - 4) =~= id);
            assert(le32(d, start - 4) == size);
            lemma_walk_data(
                d,
                next,
                RiffFields { data_offset: Some(start), data_size: Some(size as u32), ..f },
            );
        } else {
            lemma_walk_data(d, next, f);
        }
    }
}

/// Where a parsed container's PCM data is: inside the buffer, after the RIFF header,
/// right behind its `data` chunk header, whose tag sits 8 bytes before the data offset and
/// whose little-endian size, the data size, sits 4 bytes before.
pub proof fn law_riff_data_chunk(d: Seq<u8>)
    ensures
        riff_outcome(d) matches Ok(w) ==> {
            &&& 20 <= w.data_offset <= d.len()
            &&& d.subrange(w.data_offset - 8, w.data_offset - 4) == tag_data()
            &&& w.data_size == le32(d, w.data_offset - 4) as u32
        },
{
    if d.len() >= 12 {
        lemma_walk_data(d, 12, no_fields());
    }
}

/// A `fmt ` chunk header at `p` with the given format fields: the tag, a size of at least
/// 16, PCM or extensible format, and channels, sample rate and bits per sample at their
/// offsets in the chunk body.
pub open spec fn fmt_chunk_at(d: Seq<u8>, p: int, channels: u16, sample_rate: u32, bits_per_sample: u16) -> bool {
    &&& 12 <= p
    &&& p + 24 <= d.len()
    &&& d.subrange(p, p + 4) == tag_fmt()
    &&& le32(d, p + 4) >= 16
    &&& (le16(d, p + 8) == 1 || le16(d, p + 8) == 0xFFFE)
    &&& channels == le16(d, p + 10) as u16
    &&& sample_rate == le32(d, p + 12) as u32
    &&& bits_per_sample == le16(d, p + 22) as u16
}

pub open spec fn fmt_fields_ok(d: Seq<u8>, f: RiffFields) -> bool {
    &&& (f.channels is Some <==> f.sample_rate is Some)
    &&& (f.channels is Some <==> f.bits_per_sample is Some)
    &&& f.channels is Some ==> exists|p: int|
        #[trigger] fmt_chunk_at(d, p, f.channels->0, f.sample_rate->0, f.bits_per_sample->0)
}

proof fn lemma_walk_fmt(d: Seq<u8>, pos: int, f: RiffFields)
    requires
        pos >= 12,
        fmt_fields_ok(d, f),
    ensures
        riff_walk(d, pos, f) matches RiffWalk::Done(g) ==> fmt_fields_ok(d, g),
    decreases (if pos <= d.len() {
        d.len() - pos
    } else {
        0
    }),
{
    if pos + 8 <= d.len() {
        let id = d.subrange(pos, pos + 4);
        let size = le32(d, pos + 4);
        let start = pos + 8;
        let next = start + padded(size);
        assert(size >= 0);
        if id == tag_fmt() {
            if size >= 16 && start + 2 <= d.len() && (le16(d, start) == 1 || le16(d, start) == 0xFFFE)
                && start + 16 <= d.len() {
                let g = RiffFields {
                    channels: Some(le16(d, start + 2) as u16),
                    sample_rate: Some(le32(d, start + 4) as u32),
                    bits_per_sample: Some(le16(d, start + 14) as u16),
                    ..f
                };
                assert(fmt_chunk_at(d, pos, g.channels->0, g.sample_rate->0, g.bits_per_sample->0));
                lemma_walk_fmt(d, next, g);
            }
        } else if id == tag_data() {
            lemma_walk_fmt(
                d,
                next,
                RiffFields { data_offset: Some(start), data_size: Some(size as u32), ..f },
            );
        } else {
            lemma_walk_fmt(d, next, f);
        }
    }
}

/// Where a parsed container's format comes from: a `RIFF`/`WAVE` header, then a `fmt `
/// chunk of the chunk list (size at least 16, PCM or extensible format) whose channels,
/// sample rate and bits per sample are the ones reported.
pub proof fn law_riff_format_chunk(d: Seq<u8>)
    ensures
        riff_outcome(d) matches Ok(w) ==> {
            &&& d.subrange(0, 4) == tag_riff()
            &&& d.subrange(8, 12) == tag_wave()
            &&& exists|p: int| #[trigger] fmt_chunk_at(d, p, w.channels, w.sample_rate, w.bits_per_sample)
        },
{
    if d.len() >= 12 {
        lemma_walk_fmt(d, 12, no_fields());
        if let Ok(w) = riff_outcome(d) {
            if let RiffWalk::Done(g) = riff_walk(d, 12, no_fields()) {
                assert(fmt_fields_ok(d, g));
                assert(g.channels == Some(w.channels));
                let p = choose|p: int| #[trigger] fmt_chunk_at(d, p, g.channels->0, g.sample_rate->0, g.bits_per_sample->0);
                assert(fmt_chunk_at(d, p, w.channels, w.sample_rate, w.bits_per_sample));
            }
        }
    }
}

/// A `RIFF`/`WAVE` buffer whose first chunk is a `fmt ` chunk of any size of at least 16
/// bytes (PCM's 16, `WAVEFORMATEX`'s 18, a Wwise WEM's 24, ...) with the PCM or
/// extensible format tag, followed by a `data` chunk that runs to the end of the buffer,
/// parses to that fmt chunk's channels, sample rate and bits per sample, with the data
/// right behind its chunk header; the parse stays in bounds.
pub proof fn law_riff_accepts_any_fmt_size(d: Seq<u8>)
    requires
        d.len() >= 36,
        d.subrange(0, 4) == tag_riff(),
        d.subrange(8, 12) == tag_wave(),
        d.subrange(12, 16) == tag_fmt(),
        le32(d, 16) >= 16,
        le16(d, 20) == 1 || le16(d, 20) == 0xFFFE,
        20 + padded(le32(d, 16)) + 8 <= d.len(),
        d.subrange(20 + padded(le32(d, 16)), 24 + padded(le32(d, 16))) == tag_data(),
        d.len() == 28 + padded(le32(d, 16)) + le32(d, 24 + padded(le32(d, 16))),
    ensures
        riff_reads_in_bounds(d),
        riff_outcome(d) == Ok::<WavInfoModel, RiffFault>(
            WavInfoModel {
                channels: le16(d, 22) as u16,
                sample_rate: le32(d, 24) as u32,
                bits_per_sample: le16(d, 34) as u16,
                data_offset: 28 + padded(le32(d, 16)),
                data_size: le32(d, 24 + padded(le32(d, 16))) as u32,
            },
        ),
{
    let sz = le32(d, 16);
    let p2 = 20 + padded(sz);
    let n = le32(d, p2 + 4);
    assert(sz >= 0 && n >= 0);
    let f1 = RiffFields {
        channels: Some(le16(d, 22) as u16),
        sample_rate: Some(le32(d, 24) as u32),
        bits_per_sample: Some(le16(d, 34) as u16),
        data_offset: None,
        data_size: None,
    };
    let f2 = RiffFields { data_offset: Some(p2 + 8), data_size: Some(n as u32), ..f1 };
    assert(tag_data()[0] != tag_fmt()[0]);
    assert(d.subrange(p2, p2 + 4) != tag_fmt()) by {
        assert(d.subrange(p2, p2 + 4)[0] == tag_data()[0]);
    }
    assert(p2 + 8 + padded(n) + 8 > d.len());
    assert(riff_walk(d, p2 + 8 + padded(n), f2) == RiffWalk::Done(f2));
    assert(riff_walk(d, p2, f1) == riff_walk(d, p2 + 8 + padded(n), f2));
    assert(riff_walk(d, 12, no_fields()) == riff_walk(d, p2, f1));
}

} // verus!
