use atrium::macroman::{decode, encode};

#[test]
fn ascii_passes_through() {
    let (b, lossy) = encode("Dark Castle");
    assert_eq!(b, b"Dark Castle");
    assert_eq!(lossy, 0);
}

#[test]
fn accents_and_symbols() {
    assert_eq!(encode("é").0, vec![0x8E]);
    assert_eq!(encode("™").0, vec![0xAA]);
    assert_eq!(encode("Déjà Vu").0, vec![b'D', 0x8E, b'j', 0x88, b' ', b'V', b'u']);
    assert_eq!(encode("ƒ").0, vec![0xC4]);
}

#[test]
fn unrepresentable_becomes_question_mark() {
    let (b, lossy) = encode("漢");
    assert_eq!(b, b"?");
    assert_eq!(lossy, 1);
}

#[test]
fn decode_undoes_encode_for_representable_text() {
    let s = "Déjà Vu ƒ™";
    let (b, lossy) = encode(s);
    assert_eq!(lossy, 0);
    assert_eq!(decode(&b), s);
}

#[test]
fn decode_reads_high_bytes() {
    assert_eq!(decode(&[b'A', 0xAA]), "A™");
    assert_eq!(decode("Glider PRO™".as_bytes()), "Glider PRO‚Ñ¢");
}
