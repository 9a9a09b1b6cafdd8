use atrium::catalog::{
    build, decade_bucket, derive_categories, is_list_ordered, kind_category, record_lines, render_texts, slugify,
    OutItem, Report, SourceItem, Taxonomy,
};
use serde_json::Value;
use atrium::keyed::Keyed;

const MAX_ITEM_CATS: usize = 8;

fn facets(kind: Option<&str>, year: Option<i64>, vendor: Option<&str>, color: Option<bool>, mouse: Option<bool>, genre: &[&str], categories: &[&str]) -> SourceItem {
    SourceItem {
        kind: kind.map(str::to_string),
        year,
        vendor: vendor.map(str::to_string),
        color,
        mouse,
        genre: genre.iter().map(|s| s.to_string()).collect(),
        categories: categories.iter().map(|s| s.to_string()).collect(),
        ..Default::default()
    }
}

/// A source record from one JSON line, field by field as the dataset names them.
fn item(line: &str) -> SourceItem {
    let v: Value = serde_json::from_str(line).expect("valid source record");
    let s = |k: &str| v.get(k).and_then(Value::as_str).map(str::to_string);
    let list = |k: &str| -> Vec<String> {
        v.get(k)
            .and_then(Value::as_array)
            .map(|a| a.iter().filter_map(Value::as_str).map(str::to_string).collect())
            .unwrap_or_default()
    };
    SourceItem {
        id: s("id").expect("id"),
        name: s("name").expect("name"),
        app: s("app").expect("app"),
        kind: s("kind"),
        year: v.get("year").and_then(Value::as_i64),
        vendor: s("vendor"),
        color: v.get("color").and_then(Value::as_bool),
        max_depth: v.get("maxDepth").and_then(Value::as_i64),
        mouse: v.get("mouse").and_then(Value::as_bool),
        genre: list("genre"),
        categories: list("categories"),
        desc: s("desc"),
        image: s("image"),
        shot: s("shot"),
        icon: s("icon"),
        type_: s("type"),
        creator: s("creator"),
        source: s("source"),
        hotkey: s("hotkey"),
        cd_image: s("cdImage"),
        cd_required: v.get("cdRequired").and_then(Value::as_bool),
        cd_volume: s("cdVolume"),
        cd_app: s("cdApp"),
    }
}

/// Compile a whole source text: its record lines, each parsed, then built.
fn build_text(text: &str) -> (Vec<OutItem>, Report) {
    let recs: Vec<(usize, SourceItem)> = record_lines(text).into_iter().map(|(ln, l)| (ln, item(&l))).collect();
    build(&recs)
}

#[test]
fn decade_buckets() {
    assert_eq!(decade_bucket(1986), "1980s");
    assert_eq!(decade_bucket(1990), "1990s");
    assert_eq!(decade_bucket(1996), "1990s");
    assert_eq!(decade_bucket(1984), "1980s");
}

#[test]
fn facets_in_priority_order() {
    let it = facets(None, Some(1986), Some("Silicon Beach Software"), Some(false), Some(true), &["Action"], &[]);
    assert_eq!(
        derive_categories(&it),
        vec!["Games", "Action", "B&W", "1980s", "Silicon Beach Software", "Mouse Required"]
    );
}

#[test]
fn pre_1987_defaults_to_bw_but_explicit_color_wins() {
    let it = facets(None, Some(1985), None, None, None, &[], &[]);
    assert!(derive_categories(&it).iter().any(|c| c == "B&W"));
    let it = facets(None, Some(1985), None, Some(true), None, &[], &[]);
    let cats = derive_categories(&it);
    assert!(cats.iter().any(|c| c == "Color"));
    assert!(!cats.iter().any(|c| c == "B&W"));
    let it = facets(None, Some(1990), None, None, None, &[], &[]);
    let cats = derive_categories(&it);
    assert!(!cats.iter().any(|c| c == "Color" || c == "B&W"));
}

#[test]
fn color_and_kind_mapping() {
    let it = facets(Some("utility"), None, None, Some(true), Some(false), &[], &[]);
    let cats = derive_categories(&it);
    assert!(cats.contains(&"Utilities".to_string()));
    assert!(cats.contains(&"Color".to_string()));
    assert!(cats.contains(&"No Mouse".to_string()));
}

#[test]
fn dedup_is_case_insensitive() {
    let it = facets(None, None, None, None, None, &["Games"], &["GAMES"]);
    let cats = derive_categories(&it);
    assert_eq!(cats.iter().filter(|c| c.eq_ignore_ascii_case("games")).count(), 1);
}

#[test]
fn clamps_to_eight_categories() {
    let it = facets(Some("game"), Some(1990), Some("V"), Some(true), Some(true), &["A", "B", "C", "D", "E"], &[]);
    let cats = derive_categories(&it);
    assert!(cats.len() > MAX_ITEM_CATS);
}

#[test]
fn slugify_is_hfs_and_macroman_safe() {
    assert_eq!(slugify("Action"), "action");
    assert_eq!(slugify("B&W"), "b-w");
    assert_eq!(slugify("Card & Casino"), "card-casino");
    assert_eq!(slugify("Games (2)"), "games-2");
    assert_eq!(slugify("Silicon Beach Software"), "silicon-beach-software");
    assert!(slugify("A Really Very Long Category Name Indeed").len() <= 24);
}

#[test]
fn slugify_of_nothing_is_cat() {
    assert_eq!(slugify("&&&"), "cat");
    assert_eq!(slugify("A Really Very Long Category Name Indeed"), "a-really-very-long-categ");
}

#[test]
fn kind_and_decade_edges() {
    assert_eq!(kind_category(None), "Games");
    assert_eq!(kind_category(Some("application")), "Applications");
    assert_eq!(kind_category(Some("util")), "Utilities");
    assert_eq!(kind_category(Some("other")), "Games");
    assert_eq!(decade_bucket(-5), "0s");
    assert_eq!(decade_bucket(-15), "-10s");
    assert!(is_list_ordered("staff picks"));
    assert!(!is_list_ordered("Action"));
}

#[test]
fn order_cats_follows_the_taxonomy_then_the_alphabet() {
    let t = Taxonomy {
        order: vec!["Recommended".into(), "Action".into(), "Puzzle".into()],
        default: String::new(),
        catch_all_game: String::new(),
        kind_map: Keyed::new(),
        genre_map: Keyed::new(),
        recommended: vec![],
        adds: Keyed::new(),
    };
    let mut cats: Vec<String> = vec!["Zeta".into(), "Puzzle".into(), "Alpha".into(), "Recommended".into(), "Puzzle".into()];
    t.order_cats(&mut cats);
    assert_eq!(cats, vec!["Recommended", "Puzzle", "Alpha", "Zeta"]);
}

#[test]
fn emits_vendor_and_genre_strings() {
    let (items, _) = build_text(
        r#"{"id":"dc","name":"Dark Castle","app":"a","vendor":"Silicon Beach Software","genre":["Action","Arcade"],"year":1986}"#,
    );
    assert_eq!(items[0].vendor.as_deref(), Some("Silicon Beach Software"));
    assert_eq!(items[0].genre.as_deref(), Some("Action, Arcade"));
    // No vendor/genre -> omitted (None).
    let (bare, _) = build_text(r#"{"id":"x","name":"X","app":"a"}"#);
    assert!(bare[0].vendor.is_none() && bare[0].genre.is_none());
}

#[test]
fn emits_cd_fields() {
    let (items, _) = build_text(
        r#"{"id":"myst","name":"Myst","app":"x","cdImage":"MYST.iso","cdVolume":"Myst","cdApp":"Myst/Myst","cdRequired":true}"#,
    );
    assert_eq!(items[0].cd_image.as_deref(), Some("MYST.iso"));
    assert_eq!(items[0].cd_volume.as_deref(), Some("Myst"));
    assert_eq!(items[0].cd_app.as_deref(), Some("Myst/Myst"));
    assert_eq!(items[0].cd_required, Some(true));
    let (bare, _) = build_text(r#"{"id":"x","name":"X","app":"a"}"#);
    assert!(
        bare[0].cd_image.is_none()
            && bare[0].cd_volume.is_none()
            && bare[0].cd_app.is_none()
            && bare[0].cd_required.is_none()
    );
}

#[test]
fn hotkey_passthrough_and_normalization() {
    let (items, report) = build_text(
        "{\"id\":\"a\",\"name\":\"A\",\"app\":\"a\",\"hotkey\":\"1\"}\n\
         {\"id\":\"b\",\"name\":\"B\",\"app\":\"b\",\"hotkey\":\"xy\"}\n\
         {\"id\":\"c\",\"name\":\"C\",\"app\":\"c\"}",
    );
    assert_eq!(items[0].hotkey.as_deref(), Some("1"));
    assert_eq!(items[1].hotkey.as_deref(), Some("x"));
    assert!(items[2].hotkey.is_none());
    assert!(report.warnings.iter().any(|w| w.contains("longer than 1 char")));
}

#[test]
fn duplicate_hotkey_warns() {
    let (_items, report) = build_text(
        "{\"id\":\"a\",\"name\":\"A\",\"app\":\"a\",\"hotkey\":\"g\"}\n\
         {\"id\":\"b\",\"name\":\"B\",\"app\":\"b\",\"hotkey\":\"G\"}",
    );
    assert!(report.warnings.iter().any(|w| w.contains("already used")));
}

#[test]
fn comments_and_blanks_skipped() {
    let (items, _) = build_text("# a comment\n\n{\"id\":\"x\",\"name\":\"X\",\"app\":\"a\"}\n// trailing\n");
    assert_eq!(items.len(), 1);
}

#[test]
fn warnings_name_the_line_and_id() {
    let (items, report) = build_text(
        "{\"id\":\"a\",\"name\":\"A\",\"app\":\"a\",\"hotkey\":\" \u{e9}x \"}\n\
         # note\n\
         {\"id\":\"a\",\"name\":\"B\",\"app\":\"b\",\"genre\":[\"A\",\"B\",\"C\",\"D\",\"E\"],\"vendor\":\"V\",\"year\":1990,\"color\":true,\"mouse\":true,\"source\":\"0123456789012345678901234567890123456789xyz\"}",
    );
    assert_eq!(
        report.warnings,
        vec![
            "line 1 (a): hotkey \"\u{e9}x\" longer than 1 char; using '\u{e9}'".to_string(),
            "line 1 (a): hotkey '\u{e9}' is not a printable ASCII key; ignored".to_string(),
            "line 3 (a): duplicate id (also on line 1)".to_string(),
            "line 3 (a): 10 categories exceeds device max 8; dropping [\"V\", \"Mouse Required\"]".to_string(),
        ]
    );
    assert!(items[0].hotkey.is_none());
    assert_eq!(items[1].categories.len(), 8);
    assert_eq!(items[1].source.as_deref(), Some("012345678901234567890123456789012345678"));
    assert_eq!(report.items, 2);
    assert_eq!(report.categories.get("Games"), Some(&2));
    assert_eq!(report.categories.get("Color"), Some(&1));
    assert_eq!(report.categories.get("V"), None);
}

#[test]
fn record_lines_trim_and_number() {
    let got = record_lines("  a  \r\n//x\n\n#y\nb\r");
    assert_eq!(got, vec![(1, "a".to_string()), (5, "b".to_string())]);
}

#[test]
fn render_texts_separates_and_encodes() {
    let texts = vec!["{\"a\":\"Caf\u{e9}\"}".to_string(), "{}".to_string()];
    let (bytes, lossy) = render_texts(&texts, false, false);
    assert_eq!(lossy, 0);
    assert_eq!(bytes, b"{\"a\":\"Caf\x8e\"}\r{}\r".to_vec());
    let (lf, _) = render_texts(&texts, true, true);
    assert!(lf.ends_with(b"}\n"));
    let (crlf, _) = render_texts(&texts, true, false);
    assert!(crlf.ends_with(b"}\r\n"));
}

#[test]
fn single_file_catalog_refuses_more_than_the_device_holds() {
    let texts: Vec<String> = (0..257).map(|i| format!("{{\"id\":\"t{i}\"}}")).collect();
    assert_eq!(atrium::catalog::render_catalog(&texts, false, false), Err(257));
    let one = vec!["{\"id\":\"x\"}".to_string()];
    let (bytes, lossy) = atrium::catalog::render_catalog(&one, false, true).unwrap();
    assert_eq!(bytes, b"{\"id\":\"x\"}\n".to_vec());
    assert_eq!(lossy, 0);
}
