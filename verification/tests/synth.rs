use amoeba_rl::synth::{data_length, pcm_wav, HEADER_LEN, SAMPLE_RATE, STEP_VARIANTS};

fn u32_at(bytes: &[u8], offset: usize) -> u32 {
    u32::from_le_bytes(bytes[offset..offset + 4].try_into().unwrap())
}

#[test]
fn the_header_is_a_well_formed_wav() {
    let bytes = pcm_wav(&[0, 1000, -1000, i16::MAX, i16::MIN, 0]);
    assert_eq!(&bytes[0..4], b"RIFF");
    assert_eq!(&bytes[8..12], b"WAVE");
    assert_eq!(&bytes[12..16], b"fmt ");
    assert_eq!(&bytes[36..40], b"data");
    assert_eq!(u32_at(&bytes, 16), 16);
    assert_eq!(bytes[20..22], 1_u16.to_le_bytes());
    assert_eq!(bytes[22..24], 1_u16.to_le_bytes());
    assert_eq!(u32_at(&bytes, 24), SAMPLE_RATE);
    assert_eq!(u32_at(&bytes, 28), SAMPLE_RATE * 2);
    assert_eq!(bytes[32..34], 2_u16.to_le_bytes());
    assert_eq!(bytes[34..36], 16_u16.to_le_bytes());
    let data_len = u32_at(&bytes, 40) as usize;
    assert_eq!(data_len, bytes.len() - HEADER_LEN);
    assert_eq!(u32_at(&bytes, 4) as usize, bytes.len() - 8);
}

#[test]
fn samples_are_little_endian_twos_complement() {
    let bytes = pcm_wav(&[0, 1000, -1000, i16::MAX, i16::MIN]);
    let decoded: Vec<i16> = bytes[HEADER_LEN..]
        .chunks_exact(2)
        .map(|pair| i16::from_le_bytes([pair[0], pair[1]]))
        .collect();
    assert_eq!(decoded, vec![0, 1000, -1000, i16::MAX, i16::MIN]);
}

#[test]
fn the_length_reads_back_out_of_the_header() {
    let bytes = pcm_wav(&[7; 300]);
    assert_eq!(data_length(&bytes), Some(600));
    assert_eq!(bytes.len(), 644);
}

#[test]
fn a_truncated_buffer_reports_no_length() {
    assert_eq!(data_length(&[]), None);
    assert_eq!(data_length(b"RIFF"), None);
    assert_eq!(data_length(&pcm_wav(&[])), Some(0));
}

#[test]
fn there_are_three_step_variants() {
    assert_eq!(STEP_VARIANTS, 3);
    assert_eq!(SAMPLE_RATE, 44_100);
}
