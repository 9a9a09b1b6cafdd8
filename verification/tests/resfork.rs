use atrium::icons::resources_of_type;
use atrium::resfork::{build, Res};

fn be16(b: &[u8], o: usize) -> u16 {
    u16::from_be_bytes([b[o], b[o + 1]])
}
fn be32(b: &[u8], o: usize) -> u32 {
    u32::from_be_bytes([b[o], b[o + 1], b[o + 2], b[o + 3]])
}

/// Minimal resource-fork reader: find a resource's body by (type, id). Mirrors
/// what the 68k Resource Manager does, so a round-trip proves the fork is valid.
fn get_resource(fork: &[u8], want_tag: &[u8; 4], want_id: i16) -> Option<Vec<u8>> {
    let data_off = be32(fork, 0) as usize;
    let map_off = be32(fork, 4) as usize;
    let type_list_off = be16(fork, map_off + 24) as usize;
    let tl = map_off + type_list_off;
    let n_types = be16(fork, tl) as i32 + 1;
    for ti in 0..n_types as usize {
        let e = tl + 2 + ti * 8;
        let tag = &fork[e..e + 4];
        let count = be16(fork, e + 4) as i32 + 1;
        let ref_off = be16(fork, e + 6) as usize;
        for ri in 0..count as usize {
            let r = tl + ref_off + ri * 12;
            let id = i16::from_be_bytes([fork[r], fork[r + 1]]);
            if tag == want_tag && id == want_id {
                let d = ((fork[r + 5] as usize) << 16)
                    | ((fork[r + 6] as usize) << 8)
                    | (fork[r + 7] as usize);
                let at = data_off + d;
                let len = be32(fork, at) as usize;
                return Some(fork[at + 4..at + 4 + len].to_vec());
            }
        }
    }
    None
}

#[test]
fn single_resource_header_and_roundtrip() {
    let body = [0x11u8, 0x22, 0x33, 0x44, 0x55];
    let fork = build(&[Res::new(*b"snd ", 128, &body)]);
    // header: data offset 256, map right after the data section.
    assert_eq!(be32(&fork, 0), 256);
    let data_len = be32(&fork, 8) as usize;
    assert_eq!(be32(&fork, 4) as usize, 256 + data_len); // map offset
    assert_eq!(data_len, 4 + body.len()); // [u32 len][body]
    // type list begins 28 into the map; type four bytes past the count word.
    let map_off = be32(&fork, 4) as usize;
    assert_eq!(be16(&fork, map_off + 24), 28);
    assert_eq!(&fork[map_off + 28 + 2..map_off + 28 + 6], b"snd ");
    assert_eq!(get_resource(&fork, b"snd ", 128).unwrap(), body);
}

#[test]
fn multi_type_multi_id_roundtrip() {
    // An item's fork: a 1-bit ABMP + three colour PICTs, distinct ids.
    let abmp = vec![0xABu8; 7];
    let p8 = vec![0x08u8; 300]; // >255 so the 3-byte offsets matter
    let p16 = vec![0x16u8; 40];
    let p24 = vec![0x24u8; 5];
    let fork = build(&[
        Res::new(*b"ABMP", 129, &abmp),
        Res::new(*b"PICT", 136, &p8),
        Res::new(*b"PICT", 144, &p16),
        Res::new(*b"PICT", 152, &p24),
    ]);
    assert_eq!(get_resource(&fork, b"ABMP", 129).unwrap(), abmp);
    assert_eq!(get_resource(&fork, b"PICT", 136).unwrap(), p8);
    assert_eq!(get_resource(&fork, b"PICT", 144).unwrap(), p16);
    assert_eq!(get_resource(&fork, b"PICT", 152).unwrap(), p24);
    assert!(get_resource(&fork, b"PICT", 999).is_none());
    // two types (ABMP, PICT), PICT holds three resources.
    let map_off = be32(&fork, 4) as usize;
    assert_eq!(be16(&fork, map_off + 28), 1); // nTypes-1 = 1
}

#[test]
fn empty_fork_has_header_and_map_only() {
    let fork = build(&[]);
    assert_eq!(be32(&fork, 0), 256);
    assert_eq!(be32(&fork, 8), 0);
}

#[test]
fn written_fork_reads_back_per_type_in_order() {
    let a = vec![1u8, 2, 3];
    let b = vec![9u8; 260];
    let c: Vec<u8> = vec![];
    let d = vec![7u8, 7];
    let fork = build(&[
        Res::new(*b"PICT", 5, &a),
        Res::new(*b"snd ", -3, &b),
        Res::new(*b"PICT", 2, &c),
        Res::new(*b"snd ", 400, &d),
    ]);
    let picts = resources_of_type(&fork, b"PICT");
    assert_eq!(picts.len(), 2);
    assert_eq!(picts[0].0, 5);
    assert_eq!(picts[0].1, &a[..]);
    assert_eq!(picts[1].0, 2);
    assert_eq!(picts[1].1, &c[..]);
    let snds = resources_of_type(&fork, b"snd ");
    assert_eq!(snds.len(), 2);
    assert_eq!(snds[0].0, -3);
    assert_eq!(snds[0].1, &b[..]);
    assert_eq!(snds[1].0, 400);
    assert_eq!(snds[1].1, &d[..]);
    assert!(resources_of_type(&fork, b"ICN#").is_empty());
    assert!(resources_of_type(&build(&[]), b"PICT").is_empty());
}
