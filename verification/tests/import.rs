use atrium::import::{binhex_header, inject_plan, inject_staged, pick_launch_app, strip_top, ImportError, StagedFile};
use atrium::macroman::decode;

fn f(name: &str, ostype: &str, rel: &str) -> StagedFile {
    StagedFile { host: format!("/tmp/{name}.hqx"), rel_dir: rel.into(), mac_name: name.into(), ostype: ostype.into() }
}

#[test]
fn strip_top_drops_the_wrapper_folder() {
    assert_eq!(strip_top("Dark Castle"), "");
    assert_eq!(strip_top("Civilization/CivHackPM3"), "CivHackPM3");
    assert_eq!(strip_top("A/B/C"), "B/C");
    assert_eq!(strip_top(""), "");
}

#[test]
fn picks_the_appl_not_the_same_named_document() {
    let files = vec![f("Dark Castle", "DC2a", "Dark Castle"), f("DC Data", "DC2b", "Dark Castle"), f("DC Launcher", "APPL", "Dark Castle")];
    let got = pick_launch_app(&files, "Dark Castle").expect("an APPL exists");
    assert_eq!(files[got].mac_name, "DC Launcher");
}

#[test]
fn prefers_the_title_match_and_avoids_installers() {
    let files = vec![f("Install Marathon", "APPL", "Marathon"), f("Marathon", "APPL", "Marathon")];
    assert_eq!(files[pick_launch_app(&files, "Marathon").unwrap()].mac_name, "Marathon");
    let only = vec![f("Installer", "APPL", "X")];
    assert_eq!(only[pick_launch_app(&only, "X").unwrap()].mac_name, "Installer");
}

#[test]
fn binhex_names_prefer_utf8_and_fall_back_to_macroman() {
    let utf8 = "Glider PRO™".as_bytes();
    assert_eq!(std::str::from_utf8(utf8).unwrap(), "Glider PRO™");
    assert_eq!(decode(utf8), "Glider PRO‚Ñ¢");
    let macroman: Vec<u8> = vec![b'A', 0xAAu8];
    assert!(std::str::from_utf8(&macroman).is_err());
    assert_eq!(decode(&macroman), "A™");
}

#[test]
fn no_appl_yields_none() {
    let files = vec![f("Data", "DATA", "X"), f("More", "TEXT", "X")];
    assert!(pick_launch_app(&files, "X").is_none());
}

#[test]
fn shallower_app_wins_a_tie() {
    let files = vec![f("Game", "APPL", "Game/Extras"), f("Game", "APPL", "Game")];
    assert_eq!(pick_launch_app(&files, "Game"), Some(1));
}

#[test]
fn staged_layout_lands_under_the_folder() {
    let files = vec![f("Thing", "APPL", "X"), f("Data", "DATA", "X/Levels")];
    let s = match inject_staged("/stage/x", "x", files, Vec::new()) {
        Ok(s) => s,
        Err(e) => panic!("{}", e.message()),
    };
    assert_eq!(s.name, "X");
    assert_eq!(s.folder, "X");
    let plan = inject_plan(&s, "/MacAtrium/Apps/");
    assert_eq!(plan, vec!["/MacAtrium/Apps/X", "/MacAtrium/Apps/X/Levels"]);
}

#[test]
fn an_empty_staging_folder_is_an_error() {
    match inject_staged("/stage/empty", "empty", Vec::new(), Vec::new()) {
        Err(ImportError::NothingStaged { dir }) => assert_eq!(dir, "/stage/empty"),
        Ok(_) => panic!("nothing staged must not inject"),
    }
    let files = vec![f("Loose", "APPL", "")];
    let s = inject_staged("/stage/loose", "loose", files, Vec::new()).ok().unwrap();
    assert_eq!(s.name, "loose");
}

/// A BinHex 4.0 text of `bytes` (already run-length coded), with a preamble.
fn hqx_text(bytes: &[u8]) -> Vec<u8> {
    const TBL: &[u8] = b"!\"#$%&'()*+,-012345689@ABCDEFGHIJKLMNPQRSTUVXYZ[`abcdefhijklmpqr";
    let mut out = b"(This file must be converted with BinHex 4.0)\r\r:".to_vec();
    let mut bits: u32 = 0;
    let mut n = 0;
    for (i, &b) in bytes.iter().enumerate() {
        bits = (bits << 8) | b as u32;
        n += 8;
        while n >= 6 {
            n -= 6;
            out.push(TBL[((bits >> n) & 63) as usize]);
        }
        if i % 40 == 39 {
            out.push(b'\r');
        }
    }
    if n > 0 {
        out.push(TBL[((bits << (6 - n)) & 63) as usize]);
    }
    out.push(b':');
    out
}

fn header_bytes(name: &[u8], ostype: &[u8; 4], creator: &[u8; 4]) -> Vec<u8> {
    let mut h = vec![name.len() as u8];
    h.extend_from_slice(name);
    h.push(0);
    h.extend_from_slice(ostype);
    h.extend_from_slice(creator);
    h.extend_from_slice(&[0u8; 12]);
    h
}

#[test]
fn binhex_header_reads_name_type_and_creator() {
    let raw = hqx_text(&header_bytes("Glider PRO™".as_bytes(), b"APPL", b"gLdR"));
    assert_eq!(
        binhex_header(&raw),
        Some(("Glider PRO™".to_string(), "APPL".to_string(), "gLdR".to_string()))
    );
    // a name that is not UTF-8 is MacRoman
    let raw = hqx_text(&header_bytes(&[b'A', 0xAA], b"TEXT", b"ttxt"));
    assert_eq!(binhex_header(&raw), Some(("A™".to_string(), "TEXT".to_string(), "ttxt".to_string())));
}

#[test]
fn binhex_header_runs_and_refusals() {
    // 0x90 0x00 is a literal 0x90; 'x' 0x90 0x02 is "xx"
    let mut h = vec![4u8, b'a', 0x90, 0x00, b'x', 0x90, 0x02, 0];
    h.extend_from_slice(b"APPLabcd");
    let raw = hqx_text(&h);
    let (name, t, c) = binhex_header(&raw).unwrap();
    assert_eq!(name, "a\u{ea}xx"); // 0x90 is MacRoman ê, then the run's "xx"
    assert_eq!((t.as_str(), c.as_str()), ("APPL", "abcd"));
    // no ':' at all
    assert_eq!(binhex_header(b"not binhex"), None);
    // an empty name
    assert_eq!(binhex_header(&hqx_text(&header_bytes(b"", b"APPL", b"abcd"))), None);
    // cut short before the creator
    assert_eq!(binhex_header(&hqx_text(&[5, b'H', b'e', b'l', b'l', b'o', 0, b'A'])), None);
}
