use atrium::config::Selection;
use atrium::donors::{Donor, Registry};
use atrium::preflight::estimate;
use atrium::selection::{harvest_plan, os_in_range, resolve, resolve_donor, ver_cmp, Row};
use atrium::config::BuildConfig;
use std::cmp::Ordering;

fn row(id: &str, cats: &[&str], min: Option<&str>, max: Option<&str>, src: Option<(&str, &str)>) -> Row {
    Row {
        id: id.into(),
        cats: cats.iter().map(|s| s.to_string()).collect(),
        min_os: min.map(str::to_string),
        max_os: max.map(str::to_string),
        source: src.map(|(d, p)| (d.to_string(), p.to_string())),
    }
}

#[test]
fn donor_resolves_alias_then_filename() {
    let mut reg = Registry::default();
    reg.0.insert("pop".into(), Donor::Path("/disks/pop.hda".into()));
    assert_eq!(resolve_donor("pop", &reg, None, false), Some("/disks/pop.hda".to_string()));
    assert_eq!(resolve_donor("atrium_donor_boot.vhd", &reg, Some("/tmp"), true), Some("/tmp/atrium_donor_boot.vhd".to_string()));
    assert_eq!(resolve_donor("nope.vhd", &reg, Some("/tmp"), false), None);
}

#[test]
fn versions_compare_numerically() {
    assert_eq!(ver_cmp("6.0.8", "7.1"), Ordering::Less);
    assert_eq!(ver_cmp("7.10", "7.9"), Ordering::Greater);
    assert_eq!(ver_cmp("7.1", "7.1.0"), Ordering::Equal);
    assert!(os_in_range("7.1", Some("6.0.8"), Some("7.5")));
    assert!(!os_in_range("6.0.8", Some("7.0"), None));
}

#[test]
fn selections_pick_rows() {
    let rows = vec![
        row("a", &["action"], None, Some("7.1"), None),
        row("b", &["puzzle"], Some("7.0"), None, None),
        row("c", &["action"], None, None, None),
    ];
    let (ids, missing) = resolve(&rows, &Selection::All, Some("6.0.8"));
    assert_eq!(ids, vec!["a", "c"]);
    assert!(missing.is_empty());
    let (ids, missing) = resolve(&rows, &Selection::List { ids: vec!["c".into(), "zz".into(), "b".into()] }, Some("6.0.8"));
    assert_eq!(ids, vec!["c"]);
    assert_eq!(missing, vec!["zz"]);
    let (ids, _) = resolve(&rows, &Selection::Categories { categories: vec!["Action".into()] }, None);
    assert_eq!(ids, vec!["a", "c"]);
}

#[test]
fn harvest_plan_groups_by_donor_image() {
    let rows = vec![
        row("a", &[], None, None, Some(("pop", "/Games/A"))),
        row("b", &[], None, None, Some(("boot.vhd", "/Games/B"))),
        row("c", &[], None, None, Some(("pop", "/Games/C"))),
        row("d", &[], None, None, None),
        row("e", &[], None, None, Some(("gone.vhd", "/Games/E"))),
    ];
    let mut reg = Registry::default();
    reg.0.insert("pop".into(), Donor::Path("/disks/pop.hda".into()));
    let present = vec![false, true, false, false, false];
    let (groups, unresolved) = harvest_plan(&rows, &Selection::All, None, &reg, Some("/mp"), &present);
    assert_eq!(
        groups,
        vec![
            ("/disks/pop.hda".to_string(), vec!["/Games/A".to_string(), "/Games/C".to_string()]),
            ("/mp/boot.vhd".to_string(), vec!["/Games/B".to_string()]),
        ]
    );
    assert_eq!(unresolved, vec!["d", "e"]);
}

#[test]
fn estimate_totals_and_caps_the_target() {
    let cfg = BuildConfig { disk_size_mb: Some(5000), art_depths: vec!["1".into(), "8".into()], ..BuildConfig::default() };
    let e = estimate(&cfg, 1_000_000, 2_000_000, 10);
    assert_eq!(e.art_bytes, 10 * 60_000 * 2);
    assert_eq!(e.target_bytes, 2048 * 1024 * 1024);
    assert_eq!(e.total(), 1_000_000 + 2_000_000 + 1_200_000 + 512 * 1024);
    assert!(e.fits());
    let none = estimate(&BuildConfig::default(), 0, 0, 0);
    assert_eq!(none.target_bytes, 0);
    assert!(none.fits());
}
