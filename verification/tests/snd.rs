use atrium::snd::{build_resfork, build_sound_fork, parse_wav, snd_format1, to_mono_u8, WavError};

const MAX_SECS: f32 = 7.0;


/// A tiny 16-bit mono WAV (one cycle) for round-trip structure checks.
fn tiny_wav(rate: u32, frames: usize) -> Vec<u8> {
    let data_len = frames * 2;
    let mut b = Vec::new();
    b.extend_from_slice(b"RIFF");
    b.extend_from_slice(&(36 + data_len as u32).to_le_bytes());
    b.extend_from_slice(b"WAVE");
    b.extend_from_slice(b"fmt ");
    b.extend_from_slice(&16u32.to_le_bytes());
    b.extend_from_slice(&1u16.to_le_bytes()); // PCM
    b.extend_from_slice(&1u16.to_le_bytes()); // mono
    b.extend_from_slice(&rate.to_le_bytes());
    b.extend_from_slice(&(rate * 2).to_le_bytes()); // byte rate
    b.extend_from_slice(&2u16.to_le_bytes()); // block align
    b.extend_from_slice(&16u16.to_le_bytes()); // bits
    b.extend_from_slice(b"data");
    b.extend_from_slice(&(data_len as u32).to_le_bytes());
    for i in 0..frames {
        let v = ((i as i32 % 100) * 200 - 10000) as i16;
        b.extend_from_slice(&v.to_le_bytes());
    }
    b
}

#[test]
fn parses_and_folds_to_8bit() {
    let wav = tiny_wav(11025, 50);
    let w = parse_wav(&wav).unwrap();
    assert_eq!(w.rate, 11025);
    assert_eq!(w.bits, 16);
    let mono = to_mono_u8(&w);
    assert_eq!(mono.len(), 50);
}

#[test]
fn caps_at_seven_seconds() {
    let rate = 11025u32;
    let wav = tiny_wav(rate, (rate as usize) * 10); // 10s of audio
    // Mirror build_resfork_from_wav on in-memory bytes (no temp file).
    let w = parse_wav(&wav).unwrap();
    let mut s = to_mono_u8(&w);
    let secs = s.len() as f32 / w.rate as f32;
    let cap = (w.rate as f32 * MAX_SECS) as usize;
    s.truncate(cap);
    let rsrc = build_resfork(&snd_format1(&s, w.rate));
    assert!(secs > MAX_SECS);          // original clip was over the cap
    assert_eq!(s.len(), cap);          // samples truncated to 7s
    // resource fork = 256 header + 4 (data length) + snd (42 + samples) + map.
    assert!(rsrc.len() >= 256 + 4 + 42 + cap);
}

#[test]
fn resfork_header_offsets() {
    let rsrc = build_resfork(&snd_format1(&[0x80u8; 8], 11025));
    // header: dataOffset 256, then map after data.
    assert_eq!(u32::from_be_bytes([rsrc[0], rsrc[1], rsrc[2], rsrc[3]]), 256);
    let data_len = u32::from_be_bytes([rsrc[8], rsrc[9], rsrc[10], rsrc[11]]) as usize;
    let map_off = u32::from_be_bytes([rsrc[4], rsrc[5], rsrc[6], rsrc[7]]) as usize;
    assert_eq!(map_off, 256 + data_len);
    // type-list offset (map+24) is 28; the type four bytes in is "snd ".
    assert_eq!(u16::from_be_bytes([rsrc[map_off + 24], rsrc[map_off + 25]]), 28);
    assert_eq!(&rsrc[map_off + 30..map_off + 34], b"snd ");
}

#[test]
fn sound_fork_truncates_to_the_cap() {
    let wav = tiny_wav(11025, 100);
    let fork = build_sound_fork(&wav, 40).unwrap();
    let direct = build_resfork(&snd_format1(&to_mono_u8(&parse_wav(&wav).unwrap())[..40], 11025));
    assert_eq!(fork, direct);
}

#[test]
fn non_wave_input_is_refused() {
    assert_eq!(parse_wav(b"RIFX0000WAVE").err(), Some(WavError::NotWave));
}
