use atrium::catalog::{build, OutItem, SourceItem, Taxonomy, MAX_CAT_ITEMS};
use atrium::keyed::Keyed;
use atrium::library::{categorize_titles, seed_categories, TitleFacets};
use atrium::paged::{hotkey_items, page_categories, paged_report, plan_pages};

fn src(id: &str, name: &str, genre: &[&str], hotkey: Option<&str>) -> SourceItem {
    SourceItem {
        id: id.to_string(),
        name: name.to_string(),
        app: format!("Apps/{id}/{id}"),
        kind: Some("game".to_string()),
        genre: genre.iter().map(|s| s.to_string()).collect(),
        hotkey: hotkey.map(str::to_string),
        ..Default::default()
    }
}

fn compile(recs: Vec<SourceItem>) -> Vec<OutItem> {
    let numbered: Vec<(usize, SourceItem)> = recs.into_iter().enumerate().map(|(i, s)| (i + 1, s)).collect();
    build(&numbered).0
}

fn taxonomy(order: &[&str]) -> Taxonomy {
    Taxonomy {
        order: order.iter().map(|s| s.to_string()).collect(),
        default: String::new(),
        catch_all_game: String::new(),
        kind_map: Keyed::new(),
        genre_map: Keyed::new(),
        recommended: vec![],
        adds: Keyed::new(),
    }
}

#[test]
fn paged_splits_a_category_into_capped_pages() {
    let recs: Vec<SourceItem> =
        (0..200).rev().map(|i| src(&format!("g{i}"), &format!("Game {i:03}"), &["Action"], None)).collect();
    let items = compile(recs);
    let (pages, ncats) = plan_pages(&items, None, None);
    // Games and Action, each split 128 + 72.
    assert_eq!(ncats, 2);
    let names: Vec<&str> = pages.iter().map(|p| p.name.as_str()).collect();
    assert_eq!(names, vec!["Games", "Games (2)", "Action", "Action (2)"]);
    let slugs: Vec<&str> = pages.iter().map(|p| p.slug.as_str()).collect();
    assert_eq!(slugs, vec!["games", "games-2", "action", "action-2"]);
    assert_eq!(pages[2].items.len(), MAX_CAT_ITEMS);
    assert_eq!(pages[3].items.len(), 72);
    // sorted by name: "Game 000" first although it was compiled last
    assert_eq!(items[pages[2].items[0]].name, "Game 000");
    assert_eq!(items[pages[3].items[71]].name, "Game 199");
    let r = paged_report(&items, &pages, ncats, vec![]);
    assert_eq!(r.items, 200);
    assert_eq!(r.pages, 4);
    assert_eq!(r.biggest_page, ("Games".to_string(), 128));
}

#[test]
fn paged_follows_category_db_in_taxonomy_order() {
    let items = compile(vec![src("a", "Aaa", &["Arcade"], None), src("b", "Bbb", &[], None)]);
    let db: Vec<(String, Vec<String>)> = vec![
        ("a".to_string(), vec!["Action & Arcade".to_string(), "Recommended".to_string()]),
        ("b".to_string(), vec!["Recommended".to_string()]),
    ];
    let tax = taxonomy(&["Recommended", "Action & Arcade"]);
    let (pages, ncats) = plan_pages(&items, Some(&db), Some(&tax.order));
    assert_eq!(ncats, 2);
    let names: Vec<&str> = pages.iter().map(|p| p.name.as_str()).collect();
    assert_eq!(names, vec!["Recommended", "Action & Arcade"]);
    assert_eq!(pages[1].slug, "action-arcade");
    assert_eq!(pages[1].items, vec![0]);
    assert_eq!(pages[0].items, vec![0, 1]);
    assert!(pages[0].ordered && !pages[1].ordered);
    assert_eq!(page_categories(&items, Some(&db), 1), vec!["Recommended".to_string()]);
}

#[test]
fn paged_hotkeys_only_for_hotkeyed_items() {
    let items = compile(vec![src("a", "A", &[], Some("a")), src("b", "B", &[], None)]);
    assert_eq!(hotkey_items(&items), vec![0]);
    let (pages, ncats) = plan_pages(&items, None, None);
    assert_eq!(paged_report(&items, &pages, ncats, vec![]).hotkeys, 1);
}

#[test]
fn list_ordered_categories_keep_their_order_and_slugs_stay_unique() {
    let mut items = compile(vec![src("z", "Zed", &[], None), src("a", "Ant", &[], None)]);
    items[0].categories = vec!["Recommended".to_string(), "B&W".to_string()];
    items[1].categories = vec!["Recommended".to_string(), "B W".to_string()];
    let (pages, _) = plan_pages(&items, None, None);
    assert_eq!(pages[0].name, "Recommended");
    assert_eq!(pages[0].items, vec![0, 1]);
    // "B&W" and "B W" both slug to "b-w"
    let slugs: Vec<&str> = pages.iter().map(|p| p.slug.as_str()).collect();
    assert_eq!(slugs, vec!["recommended", "b-w", "b-w-2"]);
}

#[test]
fn seeding_categories_from_the_taxonomy() {
    let mut tax = taxonomy(&["Recommended", "Action & Arcade", "Applications", "Black & White", "Everything Else"]);
    tax.recommended = vec!["dc".to_string()];
    tax.catch_all_game = "Everything Else".to_string();
    let mut km = Keyed::new();
    km.insert("app".to_string(), "Applications".to_string());
    tax.kind_map = km;
    let mut gm = Keyed::new();
    gm.insert("Arcade".to_string(), "Action & Arcade".to_string());
    gm.insert("Action".to_string(), "Action & Arcade".to_string());
    tax.genre_map = gm;
    let dc = TitleFacets {
        id: "dc".to_string(),
        kind: None,
        genre: vec!["Action".to_string(), "Arcade".to_string()],
        color: Some(false),
        mouse: None,
    };
    assert_eq!(seed_categories(&tax, &dc), vec!["Recommended", "Action & Arcade", "Black & White"]);
    let puzzle = TitleFacets { id: "p".to_string(), genre: vec!["Puzzle".to_string()], ..Default::default() };
    assert_eq!(seed_categories(&tax, &puzzle), vec!["Everything Else"]);
    let app = TitleFacets { id: "w".to_string(), kind: Some("app".to_string()), ..Default::default() };
    assert_eq!(seed_categories(&tax, &app), vec!["Applications"]);
    let curated = Some(vec!["Zzz".to_string(), "Recommended".to_string()]);
    let (rows, report) = categorize_titles(&tax, &vec![(dc, None), (puzzle, curated), (app, Some(vec![]))]);
    assert_eq!(rows[0].1, vec!["Recommended", "Action & Arcade", "Black & White"]);
    assert_eq!(rows[1].1, vec!["Recommended", "Zzz"]);
    assert_eq!(report.titles, 3);
    assert_eq!(report.preserved, 2);
    assert_eq!(report.assigned, 2);
    assert_eq!(report.uncategorized, 1);
    assert_eq!(report.per_category.get("Recommended"), Some(&2));
}
