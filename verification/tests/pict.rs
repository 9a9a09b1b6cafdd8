use atrium::pict::{needs_downscale, build_pict, build_raw1, median_cut, nearest, pack_row, packbits, quantize, Depth, RAW1_HEADER_LEN};

fn unpack(src: &[u8], out_len: usize) -> Vec<u8> {
    let mut out = Vec::new();
    let mut i = 0;
    while i < src.len() && out.len() < out_len {
        let n = src[i] as i8;
        i += 1;
        if n >= 0 {
            let cnt = n as usize + 1;
            out.extend_from_slice(&src[i..i + cnt]);
            i += cnt;
        } else if n != -128 {
            let cnt = (1 - n as i32) as usize;
            out.extend(std::iter::repeat(src[i]).take(cnt));
            i += 1;
        }
    }
    out
}

#[test]
fn packbits_roundtrips_repeat_and_literal() {
    let data = b"AAAAAAA\x01\x02\x03BBBBCCDDEEFF".to_vec();
    let packed = packbits(&data);
    assert!(packed.len() < data.len());
    assert_eq!(unpack(&packed, data.len()), data);
}

#[test]
fn packbits_long_runs_and_literals_roundtrip() {
    let mut data = vec![7u8; 300];
    data.extend((0..=255u8).collect::<Vec<u8>>());
    let packed = packbits(&data);
    assert_eq!(unpack(&packed, data.len()), data);
    assert!(packed.len() <= data.len() + data.len() / 128 + 1);
    assert!(packbits(&[]).is_empty());
}

#[test]
fn pack_row_bit_layouts() {
    let idx = [1u8, 0, 1, 0, 0, 0, 0, 0];
    assert_eq!(pack_row(&idx, 8, 1, 1), vec![0b1010_0000]);
    let idx = [0x0A, 0x0B];
    assert_eq!(pack_row(&idx, 2, 4, 1), vec![0xAB]);
    let idx = [3u8, 7, 9];
    assert_eq!(pack_row(&idx, 3, 8, 3), vec![3, 7, 9]);
}

#[test]
fn pict_opcodes_are_word_aligned() {
    for (w, h) in [(7u16, 5u16), (13, 9), (31, 17), (130, 97)] {
        let rgba = vec![0x80u8; w as usize * h as usize * 4];
        for depth in [Depth::One, Depth::Four, Depth::Eight, Depth::Sixteen, Depth::TwentyFour] {
            let (data, _) = build_pict(w, h, &rgba, depth, true);
            assert_eq!(data.len() % 2, 0, "{w}x{h} {:?}: picture data must be even-length", depth);
            assert_eq!(&data[data.len() - 2..], &[0x00, 0xFF], "must end with OpEndPic");
        }
    }
}

#[test]
fn pict_structure_starts_and_ends_correctly() {
    let rgba = vec![255u8; 2 * 2 * 4];
    let (data, _) = build_pict(2, 2, &rgba, Depth::Eight, true);
    assert_eq!(&data[2..10], &[0, 0, 0, 0, 0, 2, 0, 2]);
    assert_eq!(&data[10..12], &[0x00, 0x11]);
    assert_eq!(&data[12..14], &[0x02, 0xFF]);
    assert_eq!(&data[14..16], &[0x0C, 0x00]);
    assert_eq!(&data[data.len() - 2..], &[0x00, 0xFF]);
}

#[test]
fn sixteen_bit_uses_directbits() {
    let rgba = vec![255u8; 2 * 2 * 4];
    let (data, colors) = build_pict(2, 2, &rgba, Depth::Sixteen, true);
    assert_eq!(colors, 0);
    assert!(data.windows(2).any(|w| w == [0x00, 0x9A]));
}

#[test]
fn twentyfour_bit_is_direct_32bit_pixels() {
    let mut rgba = vec![0u8; 2 * 2 * 4];
    for p in rgba.chunks_mut(4) {
        p[0] = 0xFF;
        p[3] = 0xFF;
    }
    let (data, colors) = build_pict(2, 2, &rgba, Depth::TwentyFour, true);
    assert_eq!(colors, 0);
    let op = data.windows(2).position(|w| w == [0x00, 0x9A]).expect("DirectBitsRect");
    assert!(data.windows(4).any(|w| w == [0x00, 0xFF, 0x00, 0x00]), "32-bit 0,R,G,B pixel");
    let _ = op;
}

#[test]
fn median_cut_separates_distinct_colors() {
    let px = vec![[255, 0, 0], [0, 255, 0], [0, 0, 255], [10, 10, 10]];
    let pal = median_cut(px.clone(), 4);
    assert_eq!(pal.len(), 4);
    for c in &px {
        let i = nearest(&pal, c[0], c[1], c[2]) as usize;
        let p = pal[i];
        let d = (p.0 as i32 - c[0] as i32).abs() + (p.1 as i32 - c[1] as i32).abs() + (p.2 as i32 - c[2] as i32).abs();
        assert!(d < 40, "colour {c:?} mapped to far palette entry {p:?}");
    }
}

#[test]
fn median_cut_caps_at_n_and_handles_few_colors() {
    let pal = median_cut(vec![[100, 100, 100]; 50], 16);
    assert_eq!(pal.len(), 1);
    assert_eq!(pal[0], (100, 100, 100));
}

#[test]
fn rowbytes_padded_even_for_odd_widths() {
    let rgba = vec![0u8; 24 * 2 * 4];
    let (data, _) = build_pict(24, 2, &rgba, Depth::One, true);
    let p = 50 + data[50..].windows(2).position(|w| w == [0x00, 0x98]).unwrap();
    let rb = u16::from_be_bytes([data[p + 2], data[p + 3]]) & 0x7FFF;
    assert_eq!(rb % 2, 0, "rowBytes must be even, got {rb}");
    assert_eq!(rb, 4);
}

#[test]
fn raw1_header_and_rows_are_well_formed() {
    let rgba = vec![0u8; 9 * 3 * 4];
    let (bytes, rowbytes) = build_raw1(9, 3, &rgba);
    assert_eq!(rowbytes, 2);
    assert_eq!(&bytes[0..2], b"AB");
    assert_eq!(&bytes[2..4], &[0, 1]);
    assert_eq!(&bytes[4..6], &[0, 9]);
    assert_eq!(&bytes[6..8], &[0, 3]);
    assert_eq!(&bytes[8..10], &[0, 2]);
    assert_eq!(&bytes[10..12], &[0, 1]);
    assert_eq!(bytes.len(), RAW1_HEADER_LEN + 2 * 3);
    assert_eq!(bytes[12], 0xFF);
    assert_eq!(bytes[13], 0x80);
}

#[test]
fn raw1_pads_odd_rowbytes_to_even() {
    let rgba = vec![255u8; 24 * 2 * 4];
    let (bytes, rowbytes) = build_raw1(24, 2, &rgba);
    assert_eq!(rowbytes, 4);
    assert_eq!(&bytes[8..10], &[0, 4]);
    assert!(bytes[RAW1_HEADER_LEN..].iter().all(|&b| b == 0));
}

#[test]
fn one_bit_white_image_is_all_zero_indices() {
    let rgba = vec![255u8; 4 * 4 * 4];
    let (idx, pal) = quantize(&rgba, 4, 4, Depth::One);
    assert!(idx.iter().all(|&i| i == 0));
    assert_eq!(pal[0], (255, 255, 255));
}

#[test]
fn depth_names_parse() {
    assert_eq!(Depth::parse("1"), Ok(Depth::One));
    assert_eq!(Depth::parse("32"), Ok(Depth::TwentyFour));
    assert!(Depth::parse("2").is_err());
    assert_eq!(Depth::Sixteen.bits(), 16);
}

#[test]
fn median_cut_splits_widest_channel_at_median() {
    let px = vec![[200, 0, 9], [0, 0, 1], [210, 0, 3], [10, 0, 5]];
    // red spreads widest (210): sort by red, split in the middle, average each half
    assert_eq!(median_cut(px.clone(), 2), vec![(5, 0, 3), (205, 0, 6)]);
    // one box asked for: the average of everything
    assert_eq!(median_cut(px.clone(), 1), vec![(105, 0, 4)]);
    assert_eq!(median_cut(vec![], 4), vec![(0, 0, 0)]);
}

#[test]
fn median_cut_gives_each_colour_once() {
    let mut px = vec![[0u8, 0, 0]; 7];
    px.push([255, 255, 255]);
    let pal = median_cut(px, 4);
    assert_eq!(pal, vec![(0, 0, 0), (255, 255, 255)]);
}

#[test]
fn packbits_packs_runs_and_stops_literals_before_runs() {
    let data = b"AAAAAAA\x01\x02\x03BBBBCCDDEEFF".to_vec();
    let packed = packbits(&data);
    assert_eq!(packed, vec![250, b'A', 2, 1, 2, 3, 253, b'B', 7, b'C', b'C', b'D', b'D', b'E', b'E', b'F', b'F']);
    assert_eq!(packed.len(), 17);
    assert!(!packed.contains(&0x80));
}

#[test]
fn depth_error_names_the_choices() {
    let e = Depth::parse("7").unwrap_err();
    assert_eq!(e.message(), "depth must be 1, 4, 8, 16, or 24");
    for d in [Depth::One, Depth::Four, Depth::Eight, Depth::Sixteen, Depth::TwentyFour] {
        assert_eq!(Depth::parse(&d.bits().to_string()), Ok(d));
    }
}

#[test]
fn art_is_downscaled_never_upscaled() {
    assert!(needs_downscale(640, 480, Some(256)));
    assert!(!needs_downscale(100, 80, Some(256)));
    assert!(!needs_downscale(4000, 4000, None));
}
