use atrium::library::{parse_year, pick_launch, scan_listings, RootListing};

#[test]
fn year_parsing() {
    assert_eq!(parse_year("1990"), Some(1990));
    assert_eq!(parse_year("1996+"), Some(1996));
    assert_eq!(parse_year("Infocom+"), None);
    assert_eq!(parse_year("Coding"), None);
}

#[test]
fn launch_pick_prefers_direct_name_match_over_nested_and_finder() {
    let appls: Vec<(String, String)> = vec![
        ("/Games/1990/Lemmings/Extras/Installer".into(), "xxxx".into()),
        ("/Games/1990/Lemmings/Lemmings".into(), "LEMM".into()),
        ("/Games/1990/Lemmings/Finder".into(), "MACS".into()),
    ];
    assert_eq!(pick_launch(&appls, "/Games/1990/Lemmings", "Lemmings"), "/Games/1990/Lemmings/Lemmings");
}

#[test]
fn launch_pick_edges() {
    assert_eq!(pick_launch(&vec![], "/Games/x", "X"), "");
    let only_finder: Vec<(String, String)> = vec![("/Games/x/Finder".into(), "MACS".into())];
    assert_eq!(pick_launch(&only_finder, "/Games/x", "X"), "/Games/x/Finder");
    assert_eq!(parse_year("19901"), None);
    assert_eq!(parse_year("0042 things"), Some(42));
}

fn appl(name: &str, creator: &str) -> atrium::rbcli::Entry {
    atrium::rbcli::Entry { is_dir: false, ostype: "APPL".into(), name: name.into(), creator: creator.into(), size: 0 }
}

#[test]
fn scan_groups_titles_first_wins_and_counts() {
    let games = vec![
        appl("/Games/1991/Dark Castle/Dark Castle", "DCST"),
        appl("/Games/1990/Dark Castle/Dark Castle", "DCST"),
        atrium::rbcli::Entry { is_dir: false, ostype: "TEXT".into(), name: "/Games/1990/Dark Castle/Docs".into(), creator: "ttxt".into(), size: 0 },
        appl("/Games/Infocom+/Zork/Zork", "ZORK"),
        appl("/Games/Lone", "XXXX"),
    ];
    let listings = vec![
        RootListing { donor: "boot.vhd".into(), root: 0, entries: Some(games) },
        RootListing { donor: "boot.vhd".into(), root: 1, entries: None },
    ];
    let (titles, rep) = scan_listings(&listings);
    assert_eq!(rep.titles, 2);
    assert_eq!(rep.dupes, 1);
    assert_eq!(rep.roots_missing, 1);
    assert_eq!(titles[0].id, "dark-castle");
    assert_eq!(titles[0].year, Some(1990));
    assert!(titles[0].genre.is_empty());
    assert_eq!(titles[0].kind, "game");
    assert_eq!(titles[0].src_path, "/Games/1990/Dark Castle");
    assert_eq!(titles[0].app_path, "Apps/Dark Castle/Dark Castle");
    assert_eq!(titles[1].id, "zork");
    assert_eq!(titles[1].year, None);
    assert_eq!(titles[1].genre, vec!["Infocom+".to_string()]);
}

#[test]
fn record_has_kind_genre_list_and_harvest_src() {
    let t = atrium::library::Title {
        id: "archon".into(),
        name: "Archon".into(),
        kind: "game".into(),
        year: Some(1986),
        genre: vec![],
        donor: "boot.vhd".into(),
        src_path: "/Games/1986/Archon".into(),
        app_path: "Apps/Archon/Archon".into(),
    };
    let v: serde_json::Value = serde_json::from_str(&atrium::library::title_line(&t)).unwrap();
    assert_eq!(v["kind"], "game");
    assert_eq!(v["year"], 1986);
    assert_eq!(v["harvest_src"]["donor"], "boot.vhd");
    assert_eq!(v["app"], "Apps/Archon/Archon");
}

#[test]
fn title_line_matches_the_compact_json_writer() {
    let t = atrium::library::Title {
        id: "zork".into(),
        name: "Zork".into(),
        kind: "game".into(),
        year: None,
        genre: vec!["Infocom+".into(), "Text \"adv\"".into()],
        donor: "boot.vhd".into(),
        src_path: "/Games/Infocom+/Zork".into(),
        app_path: "Apps/Zork/Zork".into(),
    };
    let line = atrium::library::title_line(&t);
    let v: serde_json::Value = serde_json::from_str(&line).unwrap();
    assert_eq!(v.to_string(), line);
}

fn rec_of(json: &str) -> atrium::merge::Record {
    let v: serde_json::Map<String, serde_json::Value> = serde_json::from_str(json).unwrap();
    let mut fields: atrium::keyed::Keyed<String> = atrium::keyed::Keyed::new();
    for (k, val) in v.iter() {
        fields.insert(k.clone(), serde_json::to_string(val).unwrap());
    }
    atrium::merge::Record { id: v.get("id").and_then(|x| x.as_str()).map(String::from), fields }
}

#[test]
fn split_moves_facets_and_existing_wins() {
    let lib = vec![
        atrium::merge::Line::Rec(rec_of(r#"{"id":"a","name":"A","color":true,"mouse":false,"vendor":"X"}"#)),
        atrium::merge::Line::Rec(rec_of(r#"{"id":"b","name":"B"}"#)),
    ];
    // hand-verified: maxDepth 8 + color FALSE must win over the extracted color:true
    let mut compat: atrium::keyed::Keyed<atrium::keyed::Keyed<String>> = atrium::keyed::Keyed::new();
    compat.insert("a".into(), rec_of(r#"{"id":"a","maxDepth":8,"color":false}"#).fields);
    let (lib_out, cmap, r) = atrium::library::split_requirements(&lib, compat);
    assert_eq!(r.moved, 1); // only "a" had facets
    let lib_text: String = lib_out
        .iter()
        .map(|l| match l {
            atrium::merge::Line::Rec(x) => atrium::merge::record_json(x),
            atrium::merge::Line::Raw(t) => t.clone(),
        })
        .collect::<Vec<_>>()
        .join("\n");
    assert!(!lib_text.contains("\"color\""), "color stripped from library");
    assert!(!lib_text.contains("\"mouse\""), "mouse stripped from library");
    assert!(lib_text.contains("\"vendor\":\"X\""), "descriptive fields kept");
    let a = cmap.get("a").unwrap();
    assert_eq!(a.get("maxDepth").unwrap(), "8");
    assert_eq!(a.get("color").unwrap(), "false", "hand-verified value wins over extracted");
    assert_eq!(a.get("mouse").unwrap(), "false", "new facet added");
    assert_eq!(r.compat_entries, 1);
}
