use atrium::rbcli::{parse_listing, parse_ls_line, resolve_bin, RbCli};

#[test]
fn parses_file_and_dir_lines() {
    let e = parse_ls_line("FILE           0  APPL DCAS  Dark Castle").unwrap();
    assert!(!e.is_dir);
    assert_eq!(e.ostype, "APPL");
    assert_eq!(e.creator, "DCAS");
    assert_eq!(e.name, "Dark Castle");

    let e = parse_ls_line("FILE        1024  ZSYS MACS  System").unwrap();
    assert_eq!(e.ostype, "ZSYS");
    assert_eq!(e.size, 1024);
    assert_eq!(e.name, "System");

    let e = parse_ls_line("DIR            0             Trash").unwrap();
    assert!(e.is_dir);
    assert_eq!(e.name, "Trash");
    assert_eq!(e.ostype, "");
}

#[test]
fn multibyte_name_after_ascii_prefix() {
    // "Déjà Vu" — the prefix is ASCII so byte 29 stays a char boundary.
    let e = parse_ls_line("FILE           0  APPL MIND  Déjà Vu").unwrap();
    assert_eq!(e.name, "Déjà Vu");
}

#[test]
fn resolve_bin_prefers_absolute_and_per_build() {
    // cfg's absolute path beats a bare settings name — the stale-$PATH trap
    // (a bare "rb-cli" silently shadowing the configured binary).
    assert_eq!(resolve_bin("/opt/rb-cli", Some("rb-cli")), "/opt/rb-cli");
    // cfg's absolute path also wins over an absolute settings path (per-build).
    assert_eq!(resolve_bin("/opt/rb-cli", Some("/usr/bin/rb-cli")), "/opt/rb-cli");
    // cfg is the bare default → an absolute settings path is preferred.
    assert_eq!(resolve_bin("rb-cli", Some("/usr/bin/rb-cli")), "/usr/bin/rb-cli");
    // both bare (or no settings) → the per-build cfg value.
    assert_eq!(resolve_bin("rb-cli", Some("rb-cli")), "rb-cli");
    assert_eq!(resolve_bin("/opt/rb-cli", None), "/opt/rb-cli");
    assert_eq!(resolve_bin("rb-cli", None), "rb-cli");
}

#[test]
fn ignores_headers() {
    assert!(parse_ls_line("Partition 2 (APM): Apple_HFS ...").is_none());
    assert!(parse_ls_line("Blessed System Folder: /System 6.0.8").is_none());
    assert!(parse_ls_line("").is_none());
}

#[test]
fn listing_keeps_entries_in_order() {
    let out = "Partition 2 (APM): Apple_HFS\nFILE           0  APPL DCAS  Dark Castle\nDIR            0             Trash\n";
    let v = parse_listing(out);
    assert_eq!(v.len(), 2);
    assert_eq!(v[0].name, "Dark Castle");
    assert!(v[1].is_dir);
}

#[test]
fn ls_argv_names_the_verb() {
    let rb = RbCli::new("rb-cli");
    let a = rb.ls("disk.hda", "/");
    assert_eq!(a, vec!["ls".to_string(), "-q".to_string(), "disk.hda".to_string(), "/".to_string()]);
}

#[test]
fn exists_lists_the_parent_and_finds_the_leaf() {
    let listing: Vec<atrium::rbcli::Entry> = vec![atrium::rbcli::Entry { is_dir: false, ostype: "APPL".into(), name: "Dark Castle".into(), creator: "DCST".into(), size: 1 }];
    assert!(atrium::rbcli::exists_in(Some(&listing), "/Games/Dark Castle/"));
    assert!(!atrium::rbcli::exists_in(Some(&listing), "/Games/Other"));
    assert!(!atrium::rbcli::exists_in(None, "/Games/Dark Castle"));
    assert!(!atrium::rbcli::exists_in(Some(&listing), "/"));
}
