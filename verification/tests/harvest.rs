use atrium::harvest::{
    esc, infer_kind, infer_year, is_clutter, is_clutter_dir, is_installer_name, pick_appl, sanitize, slugify,
    merge_stubs, stub_line, Harvested,
};
use atrium::rbcli::Entry;

#[test]
fn esc_escapes_slash_and_backslash_for_rb_cli() {
    assert_eq!(esc("Oxyd b/w"), r"Oxyd b\/w");
    assert_eq!(esc(r"a\b"), r"a\\b");
    assert_eq!(esc("plain"), "plain");
    let child_src = format!("{}/{}", "/Games/Oxyd 3.6", esc("Oxyd b/w"));
    assert_eq!(child_src, r"/Games/Oxyd 3.6/Oxyd b\/w");
}

#[test]
fn sanitize_maps_slash_not_colon() {
    assert_eq!(sanitize("Oxyd b/w"), "Oxyd b-w");
    assert_eq!(sanitize("TCP/IP Tool"), "TCP-IP Tool");
    assert_eq!(sanitize("Dark Castle"), "Dark Castle");
}

#[test]
fn slash_name_round_trips_through_app_path() {
    let app = "Oxyd b/w";
    let app_dst = sanitize(app);
    let app_path = format!("Apps/{app_dst}/{app_dst}");
    assert_eq!(app_path, "Apps/Oxyd b-w/Oxyd b-w");
    assert!(app_path.split('/').all(|c| !c.contains("b/w")));
    assert_eq!(app, "Oxyd b/w");
}

#[test]
fn slugs() {
    assert_eq!(slugify("Dark Castle"), "dark-castle");
    assert_eq!(slugify("Maze Wars+"), "maze-wars");
    assert_eq!(slugify("Déjà Vu"), "deja-vu");
    assert_eq!(slugify("Shufflepuck Café"), "shufflepuck-cafe");
    assert_eq!(slugify("4th & Inches"), "4th-inches");
}

#[test]
fn kind_and_genre() {
    assert_eq!(infer_kind("/Games/1986/Dark Castle 1.2"), ("game".into(), None));
    assert_eq!(infer_kind("/Applications/Music/Foo"), ("app".into(), Some("Music".into())));
    assert_eq!(infer_kind("/Utilities/Bar"), ("utility".into(), None));
}

#[test]
fn years() {
    assert_eq!(infer_year("/Games/1986/Dark Castle 1.2"), Some(1986));
    assert_eq!(infer_year("/Games/01 Sys 6/Dark Castle 1.2"), None);
    assert_eq!(infer_year("/Games/1989/1990 Ford Simulator II"), Some(1989));
}

fn mk(ostype: &str, name: &str) -> Entry {
    Entry { is_dir: false, ostype: ostype.into(), creator: "x".into(), name: name.into(), size: 0 }
}

#[test]
fn clutter_filter() {
    assert!(is_clutter(&mk("ZSYS", "System")));
    assert!(is_clutter(&mk("FNDR", "Finder")));
    assert!(is_clutter(&mk("BTFL", "Desktop DB")));
    assert!(!is_clutter(&mk("APPL", "Dark Castle")));
    assert!(!is_clutter(&mk("DCFL", "Data A")));
}

fn e(ostype: &str, creator: &str, name: &str) -> Entry {
    Entry { is_dir: false, ostype: ostype.into(), creator: creator.into(), name: name.into(), size: 0 }
}

#[test]
fn pick_appl_prefers_game_over_editor_and_finder() {
    let entries = vec![e("APPL", "CCC1", "CritterEditor 1.0.4M"), e("APPL", "CQST", "Crystal Quest")];
    assert_eq!(pick_appl(&entries, "/Games/1988/Crystal Quest 2.2.5m").as_deref(), Some("Crystal Quest"));
    let entries = vec![e("APPL", "MACS", "Finder"), e("APPL", "WZRD", "Wizardry")];
    assert_eq!(pick_appl(&entries, "/Games/1990/Wizardry I (3.02)").as_deref(), Some("Wizardry"));
    let entries = vec![e("APPL", "MACS", "Finder")];
    assert_eq!(pick_appl(&entries, "/Games/x/Foo").as_deref(), Some("Finder"));
    let entries = vec![e("APPL", "SANT", "SimAnt\u{2122} B&W"), e("APPL", "SANT", "SimAnt\u{2122} Color")];
    assert_eq!(pick_appl(&entries, "/Games/1991/SimAnt 1.0").as_deref(), Some("SimAnt\u{2122} Color"));
}

#[test]
fn clutter_dir_filter() {
    let dir = |name: &str| Entry { is_dir: true, ostype: String::new(), creator: String::new(), name: name.into(), size: 0 };
    let file = |name: &str| Entry { is_dir: false, ostype: "WAD ".into(), creator: "x".into(), name: name.into(), size: 0 };
    assert!(is_clutter_dir(&dir("System Folder")));
    assert!(is_clutter_dir(&dir("Trash")));
    assert!(!is_clutter_dir(&dir("wads")));
    assert!(!is_clutter_dir(&dir("Levels")));
    assert!(!is_clutter_dir(&file("System Folder")));
}

fn harvested(id: &str, name: &str, year: Option<i64>, app: &str) -> Harvested {
    Harvested {
        id: id.into(),
        name: name.into(),
        kind: "game".into(),
        year,
        genre: None,
        app_path: app.into(),
        files: vec![],
        was_installer: false,
        download: None,
        mg_nid: None,
    }
}

#[test]
fn stub_format() {
    let h = harvested("dark-castle", "Dark Castle", Some(1986), "Apps/Dark Castle/Dark Castle");
    assert_eq!(
        stub_line(&h),
        r#"{"id":"dark-castle","name":"Dark Castle","kind":"game","year":1986,"app":"Apps/Dark Castle/Dark Castle"}"#
    );
}

#[test]
fn installer_name_detection() {
    assert!(is_installer_name("Apeiron Installer"));
    assert!(is_installer_name("Install Foo"));
    assert!(is_installer_name("BDC Data A patch"));
    assert!(!is_installer_name("Apeiron"));
    assert!(!is_installer_name("Dark Castle"));
}

#[test]
fn stub_emits_provenance_only_when_set() {
    let mut h = harvested("apeiron", "Apeiron", None, "Apps/Apeiron/Apeiron");
    h.was_installer = true;
    h.download = Some("Apeiron 1.0.2.sit".into());
    h.mg_nid = Some(123);
    let line = stub_line(&h);
    assert!(line.contains(r#""was_installer":true"#));
    assert!(line.contains(r#""download":"Apeiron 1.0.2.sit""#));
    assert!(line.contains(r#""mg_nid":123"#));
}

#[test]
fn stub_quotes_names_with_json_escapes() {
    let h = harvested("q", "Say \"Hi\"", None, "Apps/Q/Q");
    assert!(stub_line(&h).contains(r#""name":"Say \"Hi\"""#));
}

#[test]
fn slugs_are_shaped_and_stable() {
    for t in ["Dark Castle", "Maze Wars+", "Déjà Vu", "Shufflepuck Café", "4th & Inches", "--A--b--", ""] {
        let s = atrium::harvest::slugify(t);
        assert!(s.chars().all(|c| c.is_ascii_lowercase() || c.is_ascii_digit() || c == '-'));
        assert!(!s.starts_with('-') && !s.ends_with('-') && !s.contains("--"));
        assert_eq!(atrium::harvest::slugify(&s), s);
    }
}

fn parsed_line(t: &str) -> (String, Option<atrium::merge::Record>) {
    let rec = serde_json::from_str::<serde_json::Map<String, serde_json::Value>>(t.trim()).ok().map(|obj| {
        let mut fields: atrium::keyed::Keyed<String> = atrium::keyed::Keyed::new();
        for (k, v) in obj.iter() {
            fields.insert(k.clone(), serde_json::to_string(v).unwrap());
        }
        atrium::merge::Record { id: obj.get("id").and_then(|x| x.as_str()).map(String::from), fields }
    });
    (t.to_string(), rec)
}

#[test]
fn merge_dedups_by_id() {
    let existing = "# header\n{\"id\":\"dark-castle\",\"name\":\"Dark Castle\",\"vendor\":\"Silicon Beach Software\"}\n";
    let stubs = vec![
        Harvested { id: "dark-castle".into(), name: "Dark Castle".into(), kind: "game".into(), year: None, genre: None, app_path: "Apps/Dark Castle/Dark Castle".into(), files: vec![], was_installer: false, download: None, mg_nid: None },
        Harvested { id: "lemmings".into(), name: "Lemmings".into(), kind: "game".into(), year: Some(1991), genre: None, app_path: "Apps/Lemmings/Lemmings".into(), files: vec![], was_installer: false, download: None, mg_nid: None },
    ];
    let lines: Vec<_> = existing.lines().map(parsed_line).collect();
    let (out_lines, appended, skipped) = merge_stubs(&lines, &stubs);
    let out: String = out_lines
        .iter()
        .map(|l| match l {
            atrium::merge::Line::Raw(t) => t.clone(),
            atrium::merge::Line::Rec(r) => atrium::merge::record_json(r),
        })
        .collect::<Vec<_>>()
        .join("\n")
        + "\n";
    assert_eq!((appended, skipped), (1, 1));
    // existing enriched dark-castle entry preserved, lemmings appended
    assert!(out.contains("Silicon Beach Software"));
    assert!(out.contains("\"id\":\"lemmings\""));
    assert_eq!(out.matches("dark-castle").count(), 1);
    // a re-run adds nothing and changes nothing
    let again: Vec<_> = out.lines().map(parsed_line).collect();
    let (out2, appended2, _) = merge_stubs(&again, &stubs);
    assert_eq!(appended2, 0);
    assert!(out2.iter().zip(out.lines()).all(|(l, t)| matches!(l, atrium::merge::Line::Raw(x) if x == t)));
}
