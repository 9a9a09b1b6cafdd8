use atrium::fetch::{classify, folder_name, pick_file, urlencode, version_key, Kind};

fn pick_names(files: &[&str], allowed: &[&str]) -> Vec<String> {
    let files: Vec<String> = files.iter().map(|s| s.to_string()).collect();
    let allowed: Vec<String> = allowed.iter().map(|s| s.to_string()).collect();
    pick_file(&files, &allowed).into_iter().map(|(n, _)| n).collect()
}

#[test]
fn classifies_formats() {
    assert!(matches!(classify("Foo.sit"), Some(Kind::Archive)));
    assert!(matches!(classify("Foo.sit.hqx"), Some(Kind::Archive)));
    assert!(matches!(classify("Foo.hqx"), Some(Kind::BinHex)));
    assert!(matches!(classify("Foo.bin"), Some(Kind::MacBinary)));
    assert!(classify("Foo.zip").is_none());
    assert!(classify("Foo.sitx").is_none());
    assert!(classify("Foo.iso").is_none());
}

#[test]
fn folder_name_is_hfs_safe() {
    assert_eq!(folder_name("Prince of Persia"), "Prince of Persia");
    assert_eq!(folder_name("Glider 4.0!!"), "Glider 4 0");
    assert!(folder_name(&"x".repeat(50)).len() <= 31);
}

#[test]
fn urlencodes_spaces() {
    assert_eq!(urlencode("a b.sit"), "a%20b.sit");
    assert_eq!(urlencode("HyperCard-Player-241.sit"), "HyperCard-Player-241.sit");
}

#[test]
fn version_key_ignores_title_numbers() {
    assert_eq!(version_key("SimCity 2000 1.2.hqx"), (1, 2, 0));
    assert_eq!(version_key("688 Attack Sub.sit"), (0, 0, 0));
    assert_eq!(version_key("Glider 4.0.sit"), (4, 0, 0));
    assert_eq!(version_key("3D Checkers 5.1.sit"), (5, 1, 0));
    assert_eq!(version_key("Prince of Persia.sit"), (0, 0, 0));
}

#[test]
fn auto_pick_prefers_full_over_updater() {
    assert_eq!(
        pick_names(&["SimCity 2000 1.2 Updater.sea.hqx", "SimCity 2000 1.2.hqx"], &[]),
        vec!["SimCity 2000 1.2.hqx"]
    );
}

#[test]
fn auto_pick_prefers_newest_version() {
    assert_eq!(pick_names(&["Glider 3.1.2.sit", "Glider 4.0.sit"], &[]), vec!["Glider 4.0.sit"]);
}

#[test]
fn auto_pick_prefers_archive_as_tiebreak() {
    assert_eq!(pick_names(&["Game.hqx", "Game.sit"], &[]), vec!["Game.sit"]);
}

#[test]
fn auto_pick_skips_unsupported_formats() {
    assert_eq!(pick_names(&["Game.zip", "Game.iso", "Game.sit"], &[]), vec!["Game.sit"]);
    assert!(pick_names(&["Game.zip", "Game.sitx"], &[]).is_empty());
}

#[test]
fn explicit_allowlist_keeps_order_and_filters() {
    assert_eq!(
        pick_names(
            &["Disk 1.img", "Game A.sit", "Game B.sit"],
            &["Game B.sit", "Nope.sit", "Disk 1.img", "Game A.sit"]
        ),
        vec!["Game B.sit", "Game A.sit"],
    );
}

#[test]
fn urlencode_escapes_reserved_bytes() {
    assert_eq!(urlencode("a&b"), "a%26b");
}
