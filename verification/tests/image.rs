use atrium::image::{app_probe_path, present_apps, selected_ids, tag_recommended, AddError, AppLine, CatLine};
use atrium::image::{build_next, build_steps, panels_folder_of, BuildAction, BuildNext, BuildPlan};
use atrium::image::{art_overlay, art_res_id, dep_installs_on, dependency_plan, first_found, is_system6_folder_name, required_dep_ids, set_bundle_bit, DepStep};

#[test]
fn dep_install_os_substring_match() {
    let os = vec!["7.1".to_string()];
    assert!(dep_installs_on(&os, "System Folder 7.1"));
    assert!(dep_installs_on(&os, "System Folder 7.1.2"));
    assert!(!dep_installs_on(&os, "System Folder 6.0.8"));
    assert!(!dep_installs_on(&os, "System Folder 7.5.5"));
    assert!(!dep_installs_on(&vec![], "System Folder 7.1"));
}

#[test]
fn system6_name_gate_accepts_6_0_4_and_up_only() {
    for n in ["System 6.0.4", "System 6.0.5", "System 6.0.7", "System 6.0.8"] {
        assert!(is_system6_folder_name(n), "{n} should be installable");
    }
    for n in ["System 4.1", "System 5.0", "System 5.1", "System 6.0.3", "System 7.5.5", "System Folder", "System Folder 8.1"] {
        assert!(!is_system6_folder_name(n), "{n} should be skipped");
    }
}

#[test]
fn bundle_bit_set_and_on_desk_cleared() {
    let mut h = vec![0u8; 128];
    h[73] = 0x01;
    set_bundle_bit(&mut h);
    assert_eq!(h[73], 0x20);
    let mut short = vec![0xFFu8; 10];
    set_bundle_bit(&mut short);
    assert_eq!(short, vec![0xFFu8; 10]);
    assert_eq!(art_res_id(8), 136);
}

#[test]
fn required_deps_are_trimmed_distinct_and_sorted() {
    let needs = vec![" SoundMgr ".to_string(), "".to_string(), "QuickTime".to_string(), "SoundMgr".to_string(), "  ".to_string()];
    assert_eq!(required_dep_ids(&needs), vec!["QuickTime".to_string(), "SoundMgr".to_string()]);
    assert!(required_dep_ids(&vec![]).is_empty());
}

#[test]
fn dependency_plan_per_folder_and_dependency() {
    let folders = vec!["System Folder 7.1".to_string(), "System Folder 6.0.8".to_string()];
    let wanted = vec!["A".to_string(), "B".to_string(), "C".to_string()];
    let known = vec![Some(vec!["7.1".to_string()]), None, Some(vec![])];
    let plan = dependency_plan(&folders, &wanted, &known);
    assert_eq!(plan.len(), 3);
    assert!(matches!(&plan[0], DepStep::Install { folder, dep: 0 } if folder == "System Folder 7.1"));
    assert!(matches!(&plan[1], DepStep::Unknown(id) if id == "B"));
    assert!(matches!(&plan[2], DepStep::Unknown(id) if id == "B"));
}

#[test]
fn art_source_precedence_and_overlay_fields() {
    let c = vec![None, Some("mg/x.png".to_string()), Some("dl/x.jpg".to_string())];
    assert_eq!(first_found(&c), Some("mg/x.png".to_string()));
    assert_eq!(first_found(&vec![None, None]), None);
    assert!(art_overlay("x", None, None, None).is_none());
    let r = art_overlay("x", None, Some("Images/x.shot.pict".into()), Some("Images/x.icon.pict".into())).unwrap();
    assert_eq!(r.id.as_deref(), Some("x"));
    assert_eq!(r.fields.get("image").unwrap(), "\"Images/x.icon.pict\"");
    assert_eq!(r.fields.get("shot").unwrap(), "\"Images/x.shot.pict\"");
    assert_eq!(r.fields.get("icon").unwrap(), "\"Images/x.icon.pict\"");
    let r = art_overlay("x", Some("Images/x.pict".into()), None, Some("Images/x.icon.pict".into())).unwrap();
    assert_eq!(r.fields.get("image").unwrap(), "\"Images/x.pict\"");
    assert!(r.fields.get("shot").is_none());
}

#[test]
fn build_course_and_moves() {
    let p = BuildPlan {
        collection_overrides: false,
        selection: true,
        explicit_harvest: false,
        mg_archive: false,
        metadata: true,
        recommended: false,
        install_all_systems: false,
        finder_replace: false,
        startup_sound: false,
        shutdown_sound: true,
    };
    let steps = build_steps(&p);
    assert_eq!(steps[0], BuildAction::CopyBase);
    assert_eq!(steps[3], BuildAction::HarvestSelection);
    assert_eq!(steps[4], BuildAction::Enrich);
    assert_eq!(*steps.last().unwrap(), BuildAction::RightSize);
    assert!(steps.contains(&BuildAction::StripControlPanels));
    assert!(steps.contains(&BuildAction::BakeShutdownSound));
    assert!(!steps.contains(&BuildAction::BakeStartupSound));
    assert_eq!(build_next(&steps, 0, true), BuildNext::Run(0, BuildAction::CopyBase));
    assert_eq!(build_next(&steps, 1, false), BuildNext::Aborted);
    let single = steps.iter().position(|a| *a == BuildAction::SingleCatalog).unwrap();
    assert_eq!(build_next(&steps, single + 1, false), BuildNext::Run(single + 1, steps[single + 1]));
    assert_eq!(build_next(&steps, steps.len(), true), BuildNext::Finished);
    assert_eq!(panels_folder_of("/System Folder 8/Startup Items"), "/System Folder 8");
    assert_eq!(panels_folder_of("Startup Items"), "/System Folder");
    assert_eq!(panels_folder_of("/Startup Items"), "/System Folder");
}

#[test]
fn add_needs_a_selection_that_resolves() {
    assert_eq!(selected_ids(&vec!["a".into()], false).unwrap_err(), AddError::NoSelection);
    assert_eq!(selected_ids(&vec![], true).unwrap_err(), AddError::NothingSelected);
    assert_eq!(AddError::NothingSelected.message(), "no titles selected to add");
    assert_eq!(selected_ids(&vec!["a".into(), "b".into()], true).unwrap(), vec!["a".to_string(), "b".to_string()]);
}

#[test]
fn present_apps_drop_missing_and_duplicate_installs() {
    assert_eq!(app_probe_path("/Apps/X/X"), "/MacAtrium/Apps/X/X");
    let l = |t: &str, app: Option<&str>, name: Option<&str>| AppLine { text: t.into(), app: app.map(String::from), name: name.map(String::from) };
    let lines = vec![
        l("# c", None, None),
        l("{a}", Some("Apps/A/A"), Some("A")),
        l("{b}", Some("Apps/B/B"), None),
        l("{a2}", Some("Apps/A/A"), Some("A again")),
        l("{noapp}", None, Some("N")),
    ];
    let (kept, dropped) = present_apps(&lines, &vec![true, true, false, true, true]);
    assert_eq!(kept, vec!["# c", "{a}", "{noapp}"]);
    assert_eq!(dropped, vec!["Apps/B/B"]);
}

#[test]
fn recommended_tag_goes_first_once_and_missing_ids_are_appended() {
    let rec = |json: &str| {
        let v: serde_json::Map<String, serde_json::Value> = serde_json::from_str(json).unwrap();
        let mut fields: atrium::keyed::Keyed<String> = atrium::keyed::Keyed::new();
        for (k, val) in v.iter() {
            fields.insert(k.clone(), serde_json::to_string(val).unwrap());
        }
        let cats = v.get("categories").and_then(|c| c.as_array()).map(|a| a.iter().map(|x| x.to_string()).collect());
        CatLine { text: json.into(), rec: Some(atrium::merge::Record { id: v.get("id").and_then(|x| x.as_str()).map(String::from), fields }), cats }
    };
    let lines = vec![
        CatLine { text: "# db".into(), rec: None, cats: None },
        rec(r#"{"id":"a","categories":["Action"]}"#),
        rec(r#"{"id":"b","categories":["Recommended","Puzzle"]}"#),
        rec(r#"{"id":"c"}"#),
    ];
    let ids = vec!["a".to_string(), "b".to_string(), "z".to_string()];
    let out = tag_recommended(&lines, &ids);
    let text: Vec<String> = out
        .iter()
        .map(|l| match l {
            atrium::merge::Line::Raw(t) => t.clone(),
            atrium::merge::Line::Rec(r) => atrium::merge::record_json(r),
        })
        .collect();
    assert_eq!(text[0], "# db");
    assert_eq!(text[1], r#"{"categories":["Recommended","Action"],"id":"a"}"#);
    assert_eq!(text[2], r#"{"categories":["Recommended","Puzzle"],"id":"b"}"#);
    assert_eq!(text[3], r#"{"id":"c"}"#);
    assert_eq!(text[4], r#"{"id":"z","categories":["Recommended"]}"#);
    assert_eq!(text.len(), 5);
}
