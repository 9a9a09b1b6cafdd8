use atrium::collections::{bundled_candidates, bundled_dir, find_path, legacy_user_dir, search_dirs, user_dir};
use atrium::settings::{default_output_dir, source_subdirs, user_root, Settings};

#[test]
fn absent_file_is_default_not_error() {
    let s = Settings::load_default(None);
    assert!(s.macpack_dir.is_none());
}

#[test]
fn configured_roots_drive_the_tree() {
    let mut s = Settings::default();
    assert_eq!(s.output_dir("/home/u"), "/home/u/MacAtrium/Images");
    assert_eq!(s.sources_dir("/home/u"), "/home/u/MacAtrium/Sources");
    s.output_dir = Some("/vol/builds".into());
    s.sources_dir = Some("/vol/sources".into());
    assert_eq!(s.output_dir("/home/u"), "/vol/builds");
    assert_eq!(s.source_subdir("Templates", "/home/u"), "/vol/sources/Templates");
    assert_eq!(s.source_subdir("Captures", "/home/u"), "/vol/sources/Captures");
    assert_eq!(s.import_stage_dir("/home/u"), "/vol/sources/Captures/_staged");
    for (name, _) in source_subdirs() {
        assert!(s.source_subdir(name, "/home/u").starts_with("/vol/sources"));
    }
    assert_eq!(source_subdirs().len(), 4);
}

#[test]
fn user_root_prefers_documents_then_home() {
    assert_eq!(user_root(Some("/home/u/Documents"), Some("/home/u")), "/home/u/Documents/MacAtrium");
    assert_eq!(user_root(None, Some("/home/u")), "/home/u/.macatrium");
    assert_eq!(user_root(None, None), "./.macatrium");
    let s = Settings::default();
    assert_eq!(s.user_library("/home/u/Documents/MacAtrium"), "/home/u/Documents/MacAtrium/library.jsonl");
    assert_eq!(default_output_dir("/tmp"), "/tmp/MacAtrium/Images");
}

#[test]
fn a_mac_app_bundle_finds_its_lists_in_resources() {
    let exe_dir = "/Apps/MacAtrium Manager.app/Contents/MacOS";
    let cands = bundled_candidates(Some(exe_dir));
    let has = |suffix: &str| cands.iter().any(|p| !p.is_empty() && p.replace('\\', "/").ends_with(suffix));
    assert!(has("Contents/MacOS/collections"), "beside the exe: {cands:?}");
    assert!(has("Contents/MacOS/../Resources/collections"), "the bundle's Resources dir is missing from the search: {cands:?}");
    assert_eq!(
        cands.last().map(|p| p.replace('\\', "/")),
        Some("data/collections".to_string()),
        "the repo-checkout path stays last, so an install never loses to it"
    );
}

#[test]
fn without_an_exe_dir_the_checkout_path_remains() {
    assert_eq!(bundled_candidates(None), vec!["data/collections".to_string()]);
}

#[test]
fn search_puts_user_before_legacy_and_shipped() {
    let user = user_dir(None, "/home/u/Documents/MacAtrium");
    assert_eq!(user.as_deref(), Some("/home/u/Documents/MacAtrium/Collections"));
    assert_eq!(user_dir(Some("/repo/data/collections"), "/x").as_deref(), Some("/repo/data/collections"));
    let legacy = legacy_user_dir(Some("/home/u"));
    assert_eq!(legacy.as_deref(), Some("/home/u/.macatrium/collections"));
    let dirs = search_dirs(user, legacy, vec!["/opt/collections".to_string()]);
    assert_eq!(dirs, vec!["/home/u/Documents/MacAtrium/Collections", "/home/u/.macatrium/collections", "/opt/collections"]);
    assert_eq!(find_path("Mac68K", &dirs, &vec![false, true, true]).as_deref(), Some("/home/u/.macatrium/collections/Mac68K.json"));
    assert_eq!(find_path("Mac68K", &dirs, &vec![false, false, false]), None);
    assert_eq!(bundled_dir(&vec![]), "data/collections");
    assert_eq!(bundled_dir(&vec!["/a".to_string(), "/b".to_string()]), "/a");
}

#[test]
fn collections_override_wins_outright() {
    assert_eq!(atrium::collections::bundled_search(Some("/x/lists"), Some("/opt/app")), vec!["/x/lists".to_string()]);
    assert_eq!(atrium::collections::bundled_search(None, None), vec!["data/collections".to_string()]);
    assert_eq!(atrium::collections::bundled_search(None, Some("/opt/app")).len(), 3);
}
