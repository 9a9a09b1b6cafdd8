use atrium::size_rsrc::{find_size_minus1_body, macbinary_rsrc_fork, patch_app_mem, SizeError};

fn be_u16(b: &[u8], o: usize) -> u16 {
    u16::from_be_bytes([b[o], b[o + 1]])
}

fn be_u32(b: &[u8], o: usize) -> u32 {
    u32::from_be_bytes([b[o], b[o + 1], b[o + 2], b[o + 3]])
}


/// Build a minimal MacBinary (empty data fork) whose resource fork holds a
/// single SIZE (-1) resource, so the patcher can be exercised without the
/// real launcher. Layout mirrors a Retro68 fork closely enough to parse.
fn synthetic_macbinary(pref: u32, min: u32) -> Vec<u8> {
    // ---- resource fork ----
    // body: flags(2) + pref(4) + min(4)
    let mut body = vec![0x48u8, 0xc0];
    body.extend_from_slice(&pref.to_be_bytes());
    body.extend_from_slice(&min.to_be_bytes());
    // data section: 4-byte length + body
    let mut data = (body.len() as u32).to_be_bytes().to_vec();
    data.extend_from_slice(&body);

    // map: 16 reserved + 4 + 2 + 2(attrs) + 2(type-list off) + 2(name-list off)
    //      then type list, then ref list.
    let type_list_off: u16 = 28; // right after the 28-byte map header fields
    // type list: count(2) + one 8-byte type entry
    // ref list begins immediately after the type list (offset from type-list start)
    let ref_off: u16 = 2 + 8;
    let mut map = vec![0u8; 24];
    map.extend_from_slice(&type_list_off.to_be_bytes()); // [24..26]
    let name_list_off: u16 = type_list_off + ref_off + 12; // past the ref list
    map.extend_from_slice(&name_list_off.to_be_bytes()); // [26..28]
    // type list
    map.extend_from_slice(&0i16.to_be_bytes()); // ntypes-1 = 0
    map.extend_from_slice(b"SIZE");
    map.extend_from_slice(&0i16.to_be_bytes()); // count-1 = 0
    map.extend_from_slice(&ref_off.to_be_bytes());
    // ref list: id(2) nameOff(2) attrs(1)+dataOff(3) handle(4)
    map.extend_from_slice(&(-1i16).to_be_bytes());
    map.extend_from_slice(&0xffffu16.to_be_bytes()); // no name
    let data_off_in_section: u32 = 0;
    map.push(0); // attrs
    map.extend_from_slice(&data_off_in_section.to_be_bytes()[1..4]); // 3-byte offset
    map.extend_from_slice(&[0u8; 4]); // handle placeholder

    let data_off: u32 = 16; // data section right after the 16-byte fork header
    let map_off: u32 = data_off + data.len() as u32;
    let mut rf = Vec::new();
    rf.extend_from_slice(&data_off.to_be_bytes());
    rf.extend_from_slice(&map_off.to_be_bytes());
    rf.extend_from_slice(&(data.len() as u32).to_be_bytes());
    rf.extend_from_slice(&(map.len() as u32).to_be_bytes());
    rf.extend_from_slice(&data);
    rf.extend_from_slice(&map);

    // ---- MacBinary ----
    let mut mb = vec![0u8; 128];
    mb[1] = 9;
    mb[2..2 + 9].copy_from_slice(b"MacAtrium");
    mb[83..87].copy_from_slice(&0u32.to_be_bytes()); // data fork len = 0
    mb[87..91].copy_from_slice(&(rf.len() as u32).to_be_bytes());
    mb.extend_from_slice(&rf);
    mb
}

#[test]
fn patches_pref_and_min_keeping_flags() {
    let mut mb = synthetic_macbinary(2048 * 1024, 1024 * 1024);
    let (old_p, old_m) = patch_app_mem(&mut mb, 512 * 1024, 384 * 1024).unwrap();
    assert_eq!(old_p, 2048 * 1024);
    assert_eq!(old_m, 1024 * 1024);
    // re-read: the new values stuck and the flags word survived
    let (start, len) = macbinary_rsrc_fork(&mb).unwrap();
    let (lo, _) = find_size_minus1_body(&mb[start..start + len]).unwrap();
    assert_eq!(be_u16(&mb[start..start + len], lo), 0x48c0, "flags preserved");
    assert_eq!(be_u32(&mb, start + lo + 2), 512 * 1024);
    assert_eq!(be_u32(&mb, start + lo + 6), 384 * 1024);
}

#[test]
fn rejects_non_macbinary() {
    let mut junk = vec![0u8; 64];
    assert!(patch_app_mem(&mut junk, 1, 1).is_err());
}

#[test]
fn short_input_is_not_macbinary() {
    let mut tiny = vec![0u8; 10];
    assert!(patch_app_mem(&mut tiny, 1, 1).is_err());
    assert!(matches!(macbinary_rsrc_fork(&[]), Err(_)));
    let _ = SizeError::NotMacBinary;
}
