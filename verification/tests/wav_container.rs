use rivals_toolkit::wav::{
    parse_riff, read_u16_le, read_u32_le, riff_in_bounds, write_canonical_wav, ConvertError,
};

fn chunk(id: &[u8; 4], body: &[u8]) -> Vec<u8> {
    let mut v = id.to_vec();
    v.extend_from_slice(&(body.len() as u32).to_le_bytes());
    v.extend_from_slice(body);
    if body.len() % 2 == 1 {
        v.push(0);
    }
    v
}

fn fmt_body(tag: u16, channels: u16, rate: u32, bits: u16) -> Vec<u8> {
    let mut b = Vec::new();
    b.extend_from_slice(&tag.to_le_bytes());
    b.extend_from_slice(&channels.to_le_bytes());
    b.extend_from_slice(&rate.to_le_bytes());
    b.extend_from_slice(&(rate * channels as u32 * (bits as u32 / 8)).to_le_bytes());
    b.extend_from_slice(&(channels * bits / 8).to_le_bytes());
    b.extend_from_slice(&bits.to_le_bytes());
    b
}

fn riff(chunks: &[Vec<u8>]) -> Vec<u8> {
    let body: Vec<u8> = chunks.concat();
    let mut v = b"RIFF".to_vec();
    v.extend_from_slice(&((body.len() + 4) as u32).to_le_bytes());
    v.extend_from_slice(b"WAVE");
    v.extend_from_slice(&body);
    v
}

fn invalid(r: Result<rivals_toolkit::wav::WavInfo, ConvertError>) -> String {
    match r {
        Err(ConvertError::InvalidWav(m)) => m,
        other => panic!("expected InvalidWav, got {other:?}"),
    }
}

#[test]
fn little_endian_reads() {
    assert_eq!(read_u16_le(&[0x34, 0x12], 0), 0x1234);
    assert_eq!(read_u32_le(&[0, 0x78, 0x56, 0x34, 0x12], 1), 0x1234_5678);
}

#[test]
fn canonical_header_bytes() {
    let out = write_canonical_wav(&[1, 2, 3, 4], 2, 44100, 16);
    assert_eq!(out.len(), 48);
    assert_eq!(&out[0..4], b"RIFF");
    assert_eq!(&out[4..8], &40u32.to_le_bytes());
    assert_eq!(&out[8..16], b"WAVEfmt ");
    assert_eq!(&out[16..20], &16u32.to_le_bytes());
    assert_eq!(&out[20..22], &1u16.to_le_bytes());
    assert_eq!(&out[22..24], &2u16.to_le_bytes());
    assert_eq!(&out[24..28], &44100u32.to_le_bytes());
    assert_eq!(&out[28..32], &176_400u32.to_le_bytes());
    assert_eq!(&out[32..34], &4u16.to_le_bytes());
    assert_eq!(&out[34..36], &16u16.to_le_bytes());
    assert_eq!(&out[36..40], b"data");
    assert_eq!(&out[40..44], &4u32.to_le_bytes());
    assert_eq!(&out[44..], &[1, 2, 3, 4]);
}

#[test]
fn canonical_wav_parses_back() {
    let pcm = [9u8, 8, 7, 6, 5, 4];
    let out = write_canonical_wav(&pcm, 1, 22050, 16);
    assert!(riff_in_bounds(&out));
    let info = parse_riff(&out).unwrap();
    assert_eq!(info.channels, 1);
    assert_eq!(info.sample_rate, 22050);
    assert_eq!(info.bits_per_sample, 16);
    assert_eq!(info.data_offset, 44);
    assert_eq!(info.data_size, 6);
    assert_eq!(&out[info.data_offset..info.data_offset + info.data_size as usize], &pcm);
    assert_eq!(&out[info.data_offset - 8..info.data_offset - 4], b"data");
    assert_eq!(read_u32_le(&out, info.data_offset - 4), info.data_size);
    assert_eq!(read_u32_le(&out, 28), 22050 * 2);
    assert_eq!(read_u16_le(&out, 32), 2);
}

#[test]
fn extensible_format_and_extra_chunks_accepted() {
    let data = riff(&[
        chunk(b"LIST", &[1, 2, 3]),
        chunk(b"fmt ", &fmt_body(0xFFFE, 2, 48000, 24)),
        chunk(b"data", &[0; 6]),
    ]);
    let info = parse_riff(&data).unwrap();
    assert_eq!((info.channels, info.sample_rate, info.bits_per_sample), (2, 48000, 24));
    assert_eq!(info.data_offset, 12 + 12 + 24 + 8);
    assert_eq!(info.data_size, 6);
}

#[test]
fn too_small_file_rejected() {
    assert_eq!(invalid(parse_riff(&[0; 8])), "file too small for RIFF header");
}

#[test]
fn missing_riff_tag_rejected() {
    let mut data = riff(&[]);
    data[0] = b'X';
    assert_eq!(invalid(parse_riff(&data)), "missing RIFF tag");
}

#[test]
fn missing_wave_tag_rejected() {
    let mut data = riff(&[]);
    data[8] = b'X';
    assert_eq!(invalid(parse_riff(&data)), "missing WAVE form type");
}

#[test]
fn small_fmt_chunk_rejected() {
    let data = riff(&[chunk(b"fmt ", &[1, 0, 2, 0])]);
    assert_eq!(invalid(parse_riff(&data)), "fmt chunk too small");
}

#[test]
fn non_pcm_format_rejected() {
    let data = riff(&[chunk(b"fmt ", &fmt_body(3, 1, 8000, 32)), chunk(b"data", &[])]);
    match parse_riff(&data) {
        Err(ConvertError::UnsupportedFormat(m)) => assert_eq!(m, "format tag 0x0003 is not PCM"),
        other => panic!("expected UnsupportedFormat, got {other:?}"),
    }
    let data = riff(&[chunk(b"fmt ", &fmt_body(0xA1B2, 1, 8000, 32))]);
    match parse_riff(&data) {
        Err(ConvertError::UnsupportedFormat(m)) => assert_eq!(m, "format tag 0xA1B2 is not PCM"),
        other => panic!("expected UnsupportedFormat, got {other:?}"),
    }
}

#[test]
fn missing_chunks_rejected() {
    let only_data = riff(&[chunk(b"data", &[1, 2])]);
    assert_eq!(invalid(parse_riff(&only_data)), "no fmt chunk found");
    let only_fmt = riff(&[chunk(b"fmt ", &fmt_body(1, 1, 8000, 16))]);
    assert_eq!(invalid(parse_riff(&only_fmt)), "no data chunk found");
}

#[test]
fn truncated_fmt_chunk_is_out_of_bounds() {
    let mut data = b"RIFF".to_vec();
    data.extend_from_slice(&20u32.to_le_bytes());
    data.extend_from_slice(b"WAVEfmt ");
    data.extend_from_slice(&16u32.to_le_bytes());
    data.extend_from_slice(&[1, 0, 2, 0]);
    assert!(!riff_in_bounds(&data));
    assert!(riff_in_bounds(&riff(&[chunk(b"data", &[1])])));
}
