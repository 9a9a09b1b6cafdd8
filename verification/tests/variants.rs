use atrium::keyed::Keyed;
use atrium::variants::{collapse, cpu_gen_index, version_key, Decision, Edition, Target};

fn ed(id: &str, group: &str) -> Edition {
    Edition { id: id.into(), group: Some(group.into()), ..Default::default() }
}
fn colour_target() -> Target {
    Target { os: Some("7.1".into()), cpu: Some("68030".into()), max_depth: 8, color: true }
}
fn bw_target() -> Target {
    Target { os: Some("6.0.8".into()), cpu: Some("68000".into()), max_depth: 1, color: false }
}
fn chosen(dec: &[Decision], group: &str) -> Option<String> {
    dec.iter().find(|d| d.group == group).and_then(|d| d.chosen.clone())
}
fn no_pins() -> Keyed<String> {
    Keyed::new()
}

#[test]
fn colour_target_picks_colour_edition_bw_target_picks_bw() {
    let eds = vec![
        Edition { color: Some(false), max_depth: 1, ..ed("simcity-bw", "simcity") },
        Edition { color: Some(true), min_depth: 4, max_depth: 8, ..ed("simcity-color", "simcity") },
    ];
    let (win, dec) = collapse(&eds, &colour_target(), &no_pins());
    assert_eq!(win, vec!["simcity-color"]);
    assert_eq!(chosen(&dec, "simcity").as_deref(), Some("simcity-color"));
    let (win, _) = collapse(&eds, &bw_target(), &no_pins());
    assert_eq!(win, vec!["simcity-bw"]);
}

#[test]
fn cpu_range_filters_then_prefer_breaks_the_tie() {
    let eds = vec![
        Edition { color: Some(true), max_depth: 8, ..ed("game-generic", "game") },
        Edition { color: Some(true), max_depth: 8, max_cpu: Some("68030".into()), prefer: 1, ..ed("game-lc", "game") },
    ];
    assert_eq!(collapse(&eds, &colour_target(), &no_pins()).0, vec!["game-lc"]);
    let quadra = Target { cpu: Some("68040".into()), ..colour_target() };
    assert_eq!(collapse(&eds, &quadra, &no_pins()).0, vec!["game-generic"]);
}

#[test]
fn newest_version_is_the_final_tiebreak() {
    let eds = vec![
        Edition { color: Some(true), max_depth: 8, ..ed("simcity-1-1", "simcity") },
        Edition { color: Some(true), max_depth: 8, ..ed("simcity-1-4", "simcity") },
        Edition { color: Some(true), max_depth: 8, ..ed("simcity-1-11", "simcity") },
    ];
    assert_eq!(collapse(&eds, &colour_target(), &no_pins()).0, vec!["simcity-1-11"]);
}

#[test]
fn pin_overrides_scoring_and_no_fit_drops_the_group() {
    let eds = vec![
        Edition { color: Some(false), max_depth: 1, ..ed("simcity-bw", "simcity") },
        Edition { color: Some(true), min_depth: 4, max_depth: 8, ..ed("simcity-color", "simcity") },
    ];
    let mut pins = Keyed::new();
    pins.insert("simcity".to_string(), "simcity-bw".to_string());
    let (win, dec) = collapse(&eds, &colour_target(), &pins);
    assert_eq!(win, vec!["simcity-bw"]);
    assert!(dec.iter().find(|d| d.group == "simcity").unwrap().pinned);
    let eds = vec![Edition { color: Some(true), min_depth: 8, min_os: Some("7.5".into()), ..ed("only-color", "loner") }];
    let (win, dec) = collapse(&eds, &bw_target(), &no_pins());
    assert!(win.is_empty());
    assert_eq!(chosen(&dec, "loner"), None);
}

#[test]
fn ungrouped_records_pass_through() {
    let eds = vec![
        Edition { id: "loom".into(), ..Default::default() },
        Edition { color: Some(true), max_depth: 8, ..ed("simcity-color", "simcity") },
        Edition { color: Some(false), max_depth: 1, ..ed("simcity-bw", "simcity") },
    ];
    let (mut win, _) = collapse(&eds, &colour_target(), &no_pins());
    win.sort();
    assert_eq!(win, vec!["loom", "simcity-color"]);
}

#[test]
fn decisions_list_the_dropped_members_in_order() {
    let eds = vec![
        Edition { color: Some(false), max_depth: 1, ..ed("a-bw", "a") },
        Edition { color: Some(true), max_depth: 8, ..ed("a-color", "a") },
        Edition { color: Some(true), max_depth: 8, ..ed("b", "b") },
    ];
    let (win, dec) = collapse(&eds, &colour_target(), &no_pins());
    assert_eq!(win, vec!["a-color", "b"]);
    assert_eq!(dec.len(), 2);
    assert_eq!(dec[0], Decision { group: "a".into(), chosen: Some("a-color".into()), dropped: vec!["a-bw".into()], pinned: false });
    assert_eq!(dec[1].group, "b");
}

#[test]
fn version_keys_read_trailing_numbers() {
    assert_eq!(version_key("simcity-1-4"), vec![1, 4]);
    assert_eq!(version_key("simcity"), Vec::<u32>::new());
    assert_eq!(version_key("sim-2k-3"), vec![3]);
    assert_eq!(cpu_gen_index("68030"), Some(2));
    assert_eq!(cpu_gen_index("Z80"), None);
}
