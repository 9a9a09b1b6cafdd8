use atrium::enrich::candidate_keys;
use atrium::mgdb::{architectures, categories, category_counts, color_cache_path, detect_color, load, systems, ColorCache, Entry, Filter, Kind};

fn entry(title: &str, kind: Kind, year: i64, systems: &[&str], arch: &[&str], cats: &[&str]) -> Entry {
    Entry {
        nid: 1,
        kind,
        title: title.into(),
        year: Some(year),
        systems: systems.iter().map(|s| s.to_string()).collect(),
        arch: arch.iter().map(|s| s.to_string()).collect(),
        categories: cats.iter().map(|s| s.to_string()).collect(),
        perspective: vec![],
        color: None,
        mouse: None,
        in_macpack: false,
        screenshots: vec![],
    }
}

#[test]
fn min_max_os_from_system_set() {
    let e = entry("X", Kind::Game, 1992, &["Mac OS 7", "Mac OS 6", "Mac OS 9", "Mac OS 8.5"], &["68k"], &["Adventure"]);
    assert_eq!(e.min_os(), Some("Mac OS 6"));
    assert_eq!(e.max_os(), Some("Mac OS 9"));
    assert!(e.is_68k());
}

#[test]
fn unranked_systems_give_no_os() {
    let none = entry("Y", Kind::App, 1990, &["BeOS"], &["PPC"], &[]);
    assert_eq!(none.min_os(), None);
    assert!(!none.is_68k());
}

#[test]
fn filter_ands_fields() {
    let mut e = entry("Dark Castle", Kind::Game, 1986, &["Mac OS 6"], &["68k"], &["Action"]);
    e.in_macpack = false;
    let f = Filter {
        kind: Some(Kind::Game),
        arch: Some("68k".into()),
        in_macpack: Some(false),
        max_year: Some(1990),
        category: Some("action".into()),
        ..Default::default()
    };
    assert!(f.matches(&e));
    // a PPC-only title fails the arch filter
    let ppc = entry("Other", Kind::Game, 1997, &["Mac OS 8"], &["PPC"], &["RPG"]);
    assert!(!f.matches(&ppc));
    // an in-MacPack title fails the "missing" filter
    let mut have = e.clone();
    have.in_macpack = true;
    assert!(!f.matches(&have));
}

#[test]
fn filter_more_fields() {
    let e = entry("Dark Castle", Kind::Game, 1986, &["Mac OS 6"], &["68k"], &["Action", "Platformer"]);
    assert!(Filter::default().matches(&e));
    let f = Filter { kind: Some(Kind::App), ..Default::default() };
    assert!(!f.matches(&e));
    let f = Filter { min_year: Some(1987), ..Default::default() };
    assert!(!f.matches(&e));
    let f = Filter { search: Some("castle".into()), max_year: Some(1986), ..Default::default() };
    assert!(f.matches(&e));
}

#[test]
fn system_filter_needs_the_label_itself() {
    let e = entry("Z", Kind::Game, 1998, &["Mac OS 8.5"], &["PPC"], &[]);
    let f = Filter { system: Some("Mac OS 8".into()), ..Default::default() };
    assert!(!f.matches(&e));
    let f = Filter { system: Some("Mac OS 8.5".into()), ..Default::default() };
    assert!(f.matches(&e));
}

#[test]
fn cross_reference_flags_macpack_presence() {
    // a tiny library with one title; an MG entry of the same name matches.
    let library = vec![("dark-castle".to_string(), "Dark Castle".to_string())];
    let lib_keys = candidate_keys("Dark Castle");
    let hit = candidate_keys("Dark Castle 1.2").into_iter().any(|k| lib_keys.contains(&k));
    assert!(hit, "versioned MG title still matches the library by candidate key");
    let miss = candidate_keys("Totally Unknown Game").into_iter().any(|k| lib_keys.contains(&k));
    assert!(!miss);
    let entries = vec![
        entry("Dark Castle 1.2", Kind::Game, 1986, &[], &[], &[]),
        entry("Totally Unknown Game", Kind::Game, 1990, &[], &[], &[]),
    ];
    let compat = vec![("dark-castle".to_string(), Some(false), Some(true))];
    let mut cache = ColorCache::new();
    cache.insert(2, true);
    let mut entries = entries;
    entries[1].nid = 2;
    let out = load(entries, &library, &compat, &cache);
    assert!(out[0].in_macpack);
    assert_eq!(out[0].color, Some(false));
    assert_eq!(out[0].mouse, Some(true));
    assert!(!out[1].in_macpack);
    assert_eq!(out[1].color, Some(true));
    assert_eq!(out[1].mouse, None);
}

#[test]
fn facets_are_distinct_and_sorted() {
    let entries = vec![
        entry("A", Kind::Game, 1990, &["Mac OS 7", "Mac OS 6"], &["68k"], &["Puzzle", "Action"]),
        entry("B", Kind::Game, 1991, &["Mac OS 7"], &["PPC", "68k"], &["Action"]),
    ];
    assert_eq!(categories(&entries), vec!["Action", "Puzzle"]);
    assert_eq!(architectures(&entries), vec!["68k", "PPC"]);
    assert_eq!(systems(&entries), vec!["Mac OS 6", "Mac OS 7"]);
}

#[test]
fn detect_color_records_only_new_probes() {
    let mut a = entry("A", Kind::Game, 1990, &[], &[], &[]);
    a.nid = 10;
    let mut b = entry("B", Kind::Game, 1990, &[], &[], &[]);
    b.nid = 11;
    b.color = Some(true);
    let mut c = entry("C", Kind::Game, 1990, &[], &[], &[]);
    c.nid = 12;
    let mut cache = ColorCache::new();
    cache.insert(12, false);
    let n = detect_color(&vec![a, b, c], &mut cache, &vec![Some(true), Some(false), Some(true)]);
    assert_eq!(n, 1);
    assert_eq!(cache.get(&10), Some(&true));
    assert_eq!(cache.get(&11), None);
    assert_eq!(cache.get(&12), Some(&false));
    assert_eq!(color_cache_path("/mg"), "/mg/metadata/color-cache.jsonl");
    assert_eq!(Kind::Game.label(), "game");
}

#[test]
fn year_parses_leading_digits() {
    let year_of = |json: &str| {
        let v: serde_json::Value = serde_json::from_str(json).unwrap();
        v.get("year").and_then(|y| y.as_str()).and_then(atrium::mgdb::year_text)
    };
    assert_eq!(year_of(r#"{"year":"1992"}"#), Some(1992));
    assert_eq!(year_of(r#"{"year":"c. 1995"}"#), Some(1995));
    assert_eq!(year_of(r#"{"year":"unknown"}"#), None);
}

#[test]
fn progress_is_reported_once_per_probe() {
    let mut a = entry("A", Kind::Game, 1990, &[], &[], &[]);
    a.nid = 10;
    let mut b = entry("B", Kind::Game, 1990, &[], &[], &[]);
    b.nid = 11;
    b.color = Some(true);
    let mut c = entry("C", Kind::Game, 1990, &[], &[], &[]);
    c.nid = 12;
    let cache = ColorCache::new();
    let marks = atrium::mgdb::progress_marks(&vec![a, b, c], &cache, &vec![None, None, Some(true)]);
    assert_eq!(marks, vec![(0, 2), (1, 2)]);
}

#[test]
fn category_tallies_rank_by_count_then_name() {
    let es = vec![
        entry("A", Kind::Game, 1990, &[], &["68k"], &["Puzzle", "Arcade"]),
        entry("B", Kind::Game, 1991, &[], &["68k"], &["Arcade"]),
        entry("C", Kind::App, 1992, &[], &["68k"], &["Utilities", "Board"]),
        entry("D", Kind::Game, 1993, &[], &["68k"], &["Board", "Arcade"]),
    ];
    let got = category_counts(&es);
    let want: Vec<(String, usize)> = vec![
        ("Arcade".into(), 3),
        ("Board".into(), 2),
        ("Puzzle".into(), 1),
        ("Utilities".into(), 1),
    ];
    assert_eq!(got, want);
    assert!(category_counts(&Vec::new()).is_empty());
}
