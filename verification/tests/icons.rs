use atrium::icons::{app_icn_plane, binhex_resource_fork, mac_palette, resources_of_type};

/// Build a minimal resource fork with the given resources for testing.
fn make_rsrc(resources: &[(&[u8; 4], i16, Vec<u8>)]) -> Vec<u8> {
    // data section: each resource = u32 len + data; remember offsets.
    let mut data = Vec::new();
    let mut offsets = Vec::new();
    for (_, _, d) in resources {
        offsets.push(data.len() as u32);
        data.extend((d.len() as u32).to_be_bytes());
        data.extend(d.iter());
    }
    // group by type, preserving order of first appearance.
    let mut types: Vec<[u8; 4]> = Vec::new();
    for (t, _, _) in resources {
        if !types.contains(*t) {
            types.push(**t);
        }
    }
    // type list: u16 nTypes-1, then per type (type[4], u16 cnt-1, u16 refRel)
    // ref lists follow the type list.
    let type_entry_bytes = 2 + types.len() * 8;
    let mut type_list = Vec::new();
    type_list.extend(((types.len() - 1) as u16).to_be_bytes());
    let mut ref_lists = Vec::new();
    for t in &types {
        let members: Vec<usize> = resources
            .iter()
            .enumerate()
            .filter(|(_, (rt, _, _))| *rt == t)
            .map(|(i, _)| i)
            .collect();
        let ref_rel = (type_entry_bytes + ref_lists.len()) as u16;
        type_list.extend(t);
        type_list.extend(((members.len() - 1) as u16).to_be_bytes());
        type_list.extend(ref_rel.to_be_bytes());
        for i in members {
            let (_, id, _) = &resources[i];
            ref_lists.extend(id.to_be_bytes());
            ref_lists.extend((0xFFFFu16).to_be_bytes()); // no name
            ref_lists.push(0); // attrs
            ref_lists.extend(&offsets[i].to_be_bytes()[1..4]); // u24 data offset
            ref_lists.extend((0u32).to_be_bytes()); // reserved
        }
    }
    let map_body = {
        let mut m = Vec::new();
        m.extend(&type_list);
        m.extend(&ref_lists);
        m
    };
    // map: 16 reserved + 4 + 2 + 2 + u16 typeListOff + u16 nameListOff + body
    let map_header = 16 + 4 + 2 + 2 + 2 + 2;
    let mut map = vec![0u8; map_header];
    let type_list_off = map_header as u16;
    map[24..26].copy_from_slice(&type_list_off.to_be_bytes());
    map[26..28].copy_from_slice(&((map_header + map_body.len()) as u16).to_be_bytes());
    map.extend(&map_body);

    let data_off = 16u32;
    let map_off = data_off + data.len() as u32;
    let mut out = Vec::new();
    out.extend(data_off.to_be_bytes());
    out.extend(map_off.to_be_bytes());
    out.extend((data.len() as u32).to_be_bytes());
    out.extend((map.len() as u32).to_be_bytes());
    out.extend(&data);
    out.extend(&map);
    out
}

#[test]
fn resfork_reads_resources_by_type() {
    let icn = vec![0xABu8; 256]; // 128 icon + 128 mask
    let rsrc = make_rsrc(&[(b"ICN#", 128, icn.clone())]);
    let got = resources_of_type(&rsrc, b"ICN#");
    assert_eq!(got.len(), 1);
    assert_eq!(got[0].0, 128);
    assert_eq!(got[0].1, &icn[..]);
    assert!(resources_of_type(&rsrc, b"BNDL").is_empty());
}

#[test]
fn bndl_resolves_appl_icon() {
    // FREF 128 -> APPL, iconLocalID 0; BNDL maps FREF local0->128, ICN# local0->256.
    let mut fref = b"APPL".to_vec();
    fref.extend((0u16).to_be_bytes()); // iconLocalID
    fref.push(0); // empty pascal name
    let mut bndl = Vec::new();
    bndl.extend(b"TEST"); // owner type
    bndl.extend((0u16).to_be_bytes()); // owner id
    bndl.extend((1u16).to_be_bytes()); // nTypes-1 = 1 (two types)
    bndl.extend(b"ICN#");
    bndl.extend((0u16).to_be_bytes()); // count-1
    bndl.extend((0u16).to_be_bytes()); // local 0
    bndl.extend((256i16).to_be_bytes()); // -> ICN# 256
    bndl.extend(b"FREF");
    bndl.extend((0u16).to_be_bytes());
    bndl.extend((0u16).to_be_bytes()); // local 0
    bndl.extend((128i16).to_be_bytes()); // -> FREF 128

    let app_icn = vec![0x11u8; 256];
    let other_icn = vec![0x22u8; 256];
    let rsrc = make_rsrc(&[
        (b"ICN#", 200, other_icn), // lower id, but NOT the app icon
        (b"ICN#", 256, app_icn.clone()),
        (b"FREF", 128, fref),
        (b"BNDL", 128, bndl),
    ]);
    let plane = app_icn_plane(&rsrc).expect("icon");
    assert_eq!(&plane[..], &app_icn[0..128]); // chose 256 via BNDL, not 200
}

#[test]
fn mac_palette_endpoints_and_ramps() {
    let pal = mac_palette();
    assert_eq!(pal[0], [0xFF, 0xFF, 0xFF]); // white at the cube's first entry
    assert_eq!(pal[215], [0x00, 0x00, 0x00]); // black at the cube's last entry
    assert_eq!(pal[216], [0xEE, 0x00, 0x00]); // first red-ramp entry
    assert_eq!(pal[246], [0xEE, 0xEE, 0xEE]); // first gray-ramp entry
    assert_eq!(pal[255], [0x11, 0x11, 0x11]); // last entry
    // cube ordering: index = r*36 + g*6 + b over levels FF/CC/99/66/33/00.
    assert_eq!(pal[1], [0xFF, 0xFF, 0xCC]); // blue steps fastest
    assert_eq!(pal[36], [0xCC, 0xFF, 0xFF]); // red step
}

#[test]
fn falls_back_to_lowest_icn_without_bundle() {
    let lo = vec![0x33u8; 256];
    let hi = vec![0x44u8; 256];
    let rsrc = make_rsrc(&[(b"ICN#", 130, hi), (b"ICN#", 129, lo.clone())]);
    let plane = app_icn_plane(&rsrc).expect("icon");
    assert_eq!(&plane[..], &lo[0..128]);
}

/// BinHex 4.0 text of a file: the stream with `0x90` escaped, written six
/// bits per symbol, wrapped at 64 columns.
fn binhex(name: &[u8], data: &[u8], rsrc: &[u8]) -> Vec<u8> {
    const ALPHABET: &[u8] = b"!\"#$%&'()*+,-012345689@ABCDEFGHIJKLMNPQRSTUVXYZ[`abcdefhijklmpqr";
    let mut stream = vec![name.len() as u8];
    stream.extend_from_slice(name);
    stream.push(0);
    stream.extend_from_slice(b"APPLTEST");
    stream.extend_from_slice(&[0, 0]);
    stream.extend_from_slice(&(data.len() as u32).to_be_bytes());
    stream.extend_from_slice(&(rsrc.len() as u32).to_be_bytes());
    stream.extend_from_slice(&[0x12, 0x34]);
    stream.extend_from_slice(data);
    stream.extend_from_slice(&[0x56, 0x78]);
    stream.extend_from_slice(rsrc);
    stream.extend_from_slice(&[0x9A, 0xBC]);
    let mut rle = Vec::new();
    for &b in &stream {
        rle.push(b);
        if b == 0x90 {
            rle.push(0);
        }
    }
    let mut bits: u32 = 0;
    let mut nbits = 0;
    let mut syms = Vec::new();
    for &b in &rle {
        bits = (bits << 8) | b as u32;
        nbits += 8;
        while nbits >= 6 {
            nbits -= 6;
            syms.push(ALPHABET[((bits >> nbits) & 0x3F) as usize]);
        }
    }
    if nbits > 0 {
        syms.push(ALPHABET[((bits << (6 - nbits)) & 0x3F) as usize]);
    }
    let mut out = b"(This file must be converted with BinHex 4.0)\n:".to_vec();
    for (i, c) in syms.iter().enumerate() {
        if i > 0 && i % 64 == 0 {
            out.push(b'\n');
        }
        out.push(*c);
    }
    out.extend_from_slice(b":\n");
    out
}

#[test]
fn binhex_decodes_back_to_the_resource_fork() {
    let rsrc: Vec<u8> = (0..=255u8).chain([0x90, 0x90, 0x00, 0x90]).collect();
    for (data, fork) in [(&b"data fork"[..], &rsrc[..]), (&[0x90u8, 1, 2][..], &b"x"[..]), (&b""[..], &b""[..])] {
        let hqx = binhex(b"Demo App", data, fork);
        assert_eq!(binhex_resource_fork(&hqx).unwrap(), fork.to_vec());
    }
}
