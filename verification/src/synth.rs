//! The integer half of the procedural sound effects: framing 16-bit PCM
//! samples as a WAV file, and reading the length back out of one.
//!
//! On the web these bytes go through the browser's audio decoder, which never
//! reports failure in a form the frontend surfaces, so a malformed header
//! hangs the loader instead of erroring. That is why the header's layout is
//! stated and proved here.

use vstd::prelude::*;

verus! {

/// Sample rate of every buffer.
pub const SAMPLE_RATE: u32 = 44_100;

/// How many buffers the step voice bakes. Playback cycles through them.
pub const STEP_VARIANTS: usize = 3;

/// Bytes in the header that comes before the samples.
pub const HEADER_LEN: usize = 44;

/// The four little-endian bytes of `x`.
pub open spec fn le32(x: nat) -> Seq<u8> {
    seq![(x % 256) as u8, ((x / 256) % 256) as u8, ((x / 65536) % 256) as u8, ((x / 16777216) % 256) as u8]
}

/// The two little-endian bytes of `x`.
pub open spec fn le16(x: nat) -> Seq<u8> {
    seq![(x % 256) as u8, ((x / 256) % 256) as u8]
}

/// The two's-complement bit pattern of a sample.
pub open spec fn sample_bits(s: i16) -> nat {
    if s >= 0 {
        s as nat
    } else {
        (s + 65536) as nat
    }
}

/// The ASCII bytes of a four-letter chunk tag.
pub open spec fn tag(a: char, b: char, c: char, d: char) -> Seq<u8> {
    seq![a as u8, b as u8, c as u8, d as u8]
}

/// The 44-byte header of a mono 16-bit PCM file at [`SAMPLE_RATE`] carrying
/// `data_len` bytes of samples.
pub open spec fn wav_header(data_len: nat) -> Seq<u8> {
    tag('R', 'I', 'F', 'F') + le32(36 + data_len) + tag('W', 'A', 'V', 'E') + tag('f', 'm', 't', ' ')
        + le32(16) + le16(1) + le16(1) + le32(SAMPLE_RATE as nat) + le32(2 * SAMPLE_RATE as nat) + le16(
        2,
    ) + le16(16) + tag('d', 'a', 't', 'a') + le32(data_len)
}

/// The sample bytes: each sample's two little-endian bytes, in order.
pub open spec fn pcm_bytes(samples: Seq<i16>) -> Seq<u8>
    decreases samples.len(),
{
    if samples.len() == 0 {
        Seq::empty()
    } else {
        pcm_bytes(samples.drop_last()) + le16(sample_bits(samples.last()))
    }
}

/// Append the little-endian bytes of `x` (`width` of them) to `out`.
fn push_le(out: &mut Vec<u8>, x: u32, width: usize)
    requires
        width == 2 || width == 4,
        width == 2 ==> x < 65536,
    ensures
        width == 4 ==> final(out)@ == old(out)@ + le32(x as nat),
        width == 2 ==> final(out)@ == old(out)@ + le16(x as nat),
{
    out.push((x % 256) as u8);
    out.push(((x / 256) % 256) as u8);
    if width == 4 {
        out.push(((x / 65536) % 256) as u8);
        out.push(((x / 16777216) % 256) as u8);
    }
    proof {
        if width == 4 {
            assert(final(out)@ =~= old(out)@ + le32(x as nat));
        } else {
            assert(final(out)@ =~= old(out)@ + le16(x as nat));
        }
    }
}

/// Append a four-letter chunk tag.
fn push_tag(out: &mut Vec<u8>, t: [u8; 4])
    ensures
        final(out)@ == old(out)@ + t@,
{
    out.push(t[0]);
    out.push(t[1]);
    out.push(t[2]);
    out.push(t[3]);
    proof {
        assert(final(out)@ =~= old(out)@ + t@);
    }
}

/// Frame mono 16-bit samples as a PCM WAV file: the 44-byte header, then each
/// sample's two little-endian bytes.
pub fn pcm_wav(samples: &[i16]) -> (out: Vec<u8>)
    requires
        36 + 2 * samples@.len() <= u32::MAX,
    ensures
        out@ == wav_header(2 * samples@.len()) + pcm_bytes(samples@),
        out@.len() == HEADER_LEN + 2 * samples@.len(),
{
    let data_len: u32 = (samples.len() * 2) as u32;
    let mut out: Vec<u8> = Vec::new();
    push_tag(&mut out, [82u8, 73u8, 70u8, 70u8]);
    push_le(&mut out, 36 + data_len, 4);
    push_tag(&mut out, [87u8, 65u8, 86u8, 69u8]);
    push_tag(&mut out, [102u8, 109u8, 116u8, 32u8]);
    push_le(&mut out, 16, 4);
    push_le(&mut out, 1, 2);
    push_le(&mut out, 1, 2);
    push_le(&mut out, SAMPLE_RATE, 4);
    push_le(&mut out, SAMPLE_RATE * 2, 4);
    push_le(&mut out, 2, 2);
    push_le(&mut out, 16, 2);
    push_tag(&mut out, [100u8, 97u8, 116u8, 97u8]);
    push_le(&mut out, data_len, 4);
    proof {
        assert(out@ =~= wav_header(data_len as nat));
        assert(out@.len() == 44);
    }
    let ghost header = out@;
    let mut i: usize = 0;
    while i < samples.len()
        invariant
            i <= samples@.len(),
            header.len() == 44,
            out@ == header + pcm_bytes(samples@.subrange(0, i as int)),
        decreases samples@.len() - i,
    {
        let s: i16 = samples[i];
        let bits: u32 = if s >= 0 { s as u32 } else { (s as i32 + 65536) as u32 };
        let ghost before = out@;
        push_le(&mut out, bits, 2);
        proof {
            let sub = samples@.subrange(0, i as int + 1);
            assert(sub.drop_last() =~= samples@.subrange(0, i as int));
            assert(out@ =~= header + pcm_bytes(sub));
        }
        i = i + 1;
    }
    proof {
        assert(samples@.subrange(0, samples@.len() as int) =~= samples@);
        lemma_pcm_len(samples@);
    }
    out
}

/// Two bytes per sample.
proof fn lemma_pcm_len(s: Seq<i16>)
    ensures
        pcm_bytes(s).len() == 2 * s.len(),
    decreases s.len(),
{
    if s.len() > 0 {
        lemma_pcm_len(s.drop_last());
    }
}

/// The little-endian number in bytes 40 to 43, if the buffer is that long.
pub open spec fn data_len_field(wav: Seq<u8>) -> Option<nat> {
    if wav.len() < 44 {
        None
    } else {
        Some((wav[40] + 256 * wav[41] + 65536 * wav[42] + 16777216 * wav[43]) as nat)
    }
}

/// How many bytes of samples a WAV header says follow it: the data chunk's
/// length field, read back out of the header. A buffer too short to hold
/// that field has none.
pub fn data_length(wav: &[u8]) -> (r: Option<u32>)
    ensures
        r matches Some(n) ==> data_len_field(wav@) == Some(n as nat),
        r is None ==> data_len_field(wav@) is None,
{
    if wav.len() < 44 {
        return None;
    }
    let b0: u32 = wav[40] as u32;
    let b1: u32 = wav[41] as u32;
    let b2: u32 = wav[42] as u32;
    let b3: u32 = wav[43] as u32;
    Some(b0 + 256 * b1 + 65536 * b2 + 16777216 * b3)
}

/// Reading the length back out of a framed buffer gives the number of sample
/// bytes that were framed.
pub proof fn law_length_reads_back(samples: Seq<i16>)
    requires
        36 + 2 * samples.len() <= u32::MAX,
    ensures
        data_len_field(wav_header(2 * samples.len()) + pcm_bytes(samples)) == Some(2 * samples.len()),
{
    let n = 2 * samples.len();
    let w = wav_header(n) + pcm_bytes(samples);
    assert(wav_header(n).len() == 44);
    assert(w[40] == (n % 256) as u8);
    assert(w[41] == ((n / 256) % 256) as u8);
    assert(w[42] == ((n / 65536) % 256) as u8);
    assert(w[43] == ((n / 16777216) % 256) as u8);
    assert(n % 256 + 256 * ((n / 256) % 256) + 65536 * ((n / 65536) % 256) + 16777216 * ((n / 16777216)
        % 256) == n) by (nonlinear_arith)
        requires
            n <= u32::MAX,
    ;
}

} // verus!
