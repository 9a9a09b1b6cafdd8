use atrium::config::{d_startup, BuildConfig, Selection};
use atrium::donors::{Donor, Registry as Donors};
use atrium::keyed::Keyed;
use atrium::targets::{Registry, Target};
use atrium::templates::{resolve, Registry as Templates, ResolveError, Template};

fn bundled_targets() -> Registry {
    let mut reg = Registry::default();
    reg.0.insert(
        "Mac Plus / SE (B&W)".to_string(),
        Target {
            base_os: "6.0.8".into(),
            art_depths: vec!["1".into()],
            app_mem_kb: Some([512, 384]),
            disk_size_mb: None,
            max_art_size: None,
            label: "68000, 1-bit".into(),
        },
    );
    reg.0.insert(
        "Mac II (Colour)".to_string(),
        Target {
            base_os: "7.1".into(),
            art_depths: vec!["1".into(), "8".into()],
            app_mem_kb: None,
            disk_size_mb: Some(200),
            max_art_size: None,
            label: "68020, 8-bit".into(),
        },
    );
    reg
}

fn file_templates() -> Templates {
    let mut reg = Templates::default();
    for (k, hda, fr) in [("6.0.8", "/t/608.hda", true), ("7.1", "/t/71.hda", false)] {
        reg.0.insert(
            k.to_string(),
            Template { hda: hda.into(), label: format!("System {k}"), finder_replace: fr, startup_items: d_startup() },
        );
    }
    reg
}

#[test]
fn bundled_targets_parse_and_reference_real_templates() {
    let reg = bundled_targets();
    assert!(!reg.0.is_empty(), "bundled targets are empty");
    let tmpls = file_templates();
    for (name, t) in &reg.0.entries {
        assert!(!t.base_os.is_empty(), "{name}: empty base_os");
        if !tmpls.0.is_empty() {
            assert!(tmpls.get(&t.base_os).is_some(), "{name}: base_os {:?} not in the template registry", t.base_os);
        }
    }
}

#[test]
fn apply_to_pins_machine_settings() {
    let t = Target {
        base_os: "6.0.8".into(),
        art_depths: vec!["1".into()],
        app_mem_kb: Some([512, 384]),
        disk_size_mb: Some(120),
        max_art_size: None,
        label: String::new(),
    };
    let mut c = BuildConfig { system: Some("/some/explicit.hda".into()), out: "/tmp/out.hda".into(), ..BuildConfig::default() };
    t.apply_to(&mut c);
    assert_eq!(c.base_os.as_deref(), Some("6.0.8"));
    assert!(c.system.is_none(), "apply clears explicit system so the template resolves");
    assert_eq!(c.art_depths, vec!["1".to_string()]);
    assert_eq!(c.app_mem_kb, Some([512, 384]));
    assert_eq!(c.disk_size_mb, Some(120));
    assert_eq!(c.out, "/tmp/out.hda");
}

#[test]
fn user_targets_override_bundled_by_name() {
    let mut reg = bundled_targets();
    let name = reg.names()[0].clone();
    let custom = Target {
        base_os: "7.1".into(),
        art_depths: vec!["8".into()],
        app_mem_kb: None,
        disk_size_mb: None,
        max_art_size: None,
        label: "mine".into(),
    };
    reg.0.insert(name.clone(), custom.clone());
    assert_eq!(reg.get(&name), Some(&custom));
}

#[test]
fn load_default_lets_a_user_target_win() {
    let mut user: Keyed<Target> = Keyed::new();
    let mine = Target {
        base_os: "7.5.5".into(),
        art_depths: vec![],
        app_mem_kb: None,
        disk_size_mb: None,
        max_art_size: Some("512x342".into()),
        label: "mine".into(),
    };
    user.insert("Mac II (Colour)".to_string(), mine.clone());
    user.insert("Quadra".to_string(), mine.clone());
    let reg = Registry::load_default(bundled_targets(), user);
    assert_eq!(reg.names(), vec!["Mac II (Colour)", "Mac Plus / SE (B&W)", "Quadra"]);
    assert_eq!(reg.get("Mac II (Colour)"), Some(&mine));
    assert_eq!(reg.get("Mac Plus / SE (B&W)").unwrap().base_os, "6.0.8");
}

#[test]
fn apply_to_leaves_unpinned_fields() {
    let t = Target { base_os: "7.1".into(), art_depths: vec![], app_mem_kb: None, disk_size_mb: None, max_art_size: None, label: String::new() };
    let mut c = BuildConfig { art_depths: vec!["8".into()], disk_size_mb: Some(50), ..BuildConfig::default() };
    t.apply_to(&mut c);
    assert_eq!(c.art_depths, vec!["8".to_string()]);
    assert_eq!(c.disk_size_mb, Some(50));
}

#[test]
fn user_templates_override_file_by_key() {
    let mut reg = Templates::default();
    reg.0.insert(
        "7.1".into(),
        Template { hda: "/repo/placeholder.hda".into(), label: "placeholder".into(), finder_replace: false, startup_items: d_startup() },
    );
    let mine = Template {
        hda: r"C:\Temp\MacAtrium_Sys-QT_761.hda".into(),
        label: "System 7.1 (QuickTime 2.5)".into(),
        finder_replace: false,
        startup_items: d_startup(),
    };
    let mut user = Keyed::new();
    user.insert("7.1".to_string(), mine.clone());
    reg.0.extend(user);
    assert_eq!(reg.get("7.1"), Some(&mine));
}

#[test]
fn explicit_system_bypasses_the_registry() {
    let cfg = BuildConfig { system: Some("/explicit/base.hda".into()), base_os: Some("no-such-os".into()), ..BuildConfig::default() };
    let out = match resolve(cfg, &Templates::default()) {
        Ok(c) => c,
        Err(_) => panic!("explicit system must not consult the registry"),
    };
    assert_eq!(out.system, Some("/explicit/base.hda".into()));
}

#[test]
fn resolve_reports_an_empty_registry_helpfully() {
    let cfg = BuildConfig { base_os: Some("7.1".into()), ..BuildConfig::default() };
    let reg = Templates::default();
    if reg.0.is_empty() {
        let err = match resolve(cfg, &reg) {
            Ok(_) => panic!("an empty registry must not resolve a base_os"),
            Err(e) => e.message(),
        };
        assert!(err.contains("none configured"), "unexpected message: {err}");
        assert!(err.contains("Settings"), "the error should point at the fix: {err}");
    }
}

#[test]
fn resolve_fills_system_and_deploy_mode_from_the_template() {
    let cfg = BuildConfig { base_os: Some("6.0.8".into()), ..BuildConfig::default() };
    let out = match resolve(cfg, &file_templates()) {
        Ok(c) => c,
        Err(e) => panic!("{}", e.message()),
    };
    assert_eq!(out.system.as_deref(), Some("/t/608.hda"));
    assert!(out.finder_replace);
    assert_eq!(out.startup_items, "/System Folder/Startup Items");
}

#[test]
fn resolve_lists_the_known_keys() {
    let cfg = BuildConfig { base_os: Some("9.2".into()), ..BuildConfig::default() };
    match resolve(cfg, &file_templates()) {
        Err(ResolveError::UnknownBaseOs { os, have }) => {
            assert_eq!(os, "9.2");
            assert_eq!(have, "6.0.8, 7.1");
        },
        _ => panic!("an unknown key must be reported"),
    }
    let cfg = BuildConfig::default();
    assert!(matches!(resolve(cfg, &file_templates()), Err(ResolveError::NoBaseSystem)));
}

#[test]
fn donors_resolve_path_and_reservoir_flag() {
    let mut reg = Donors::default();
    reg.0.insert("pop".into(), Donor::Path("/disks/pop.hda".into()));
    reg.0.insert("macgarden".into(), Donor::Full { path: "/disks/donor.hfv".into(), reservoir: true });
    assert_eq!(reg.get("pop").unwrap().path(), "/disks/pop.hda");
    assert!(!reg.get("pop").unwrap().reservoir());
    assert!(reg.get("macgarden").unwrap().reservoir());
    assert!(reg.get("nope").is_none());
    assert_eq!(reg.keys(), vec!["macgarden", "pop"]);
    assert!(Donors::load_default(None).0.is_empty());
}

#[test]
fn config_defaults_match_the_named_defaults() {
    let c = BuildConfig::default();
    assert_eq!(c.startup_items, "/System Folder/Startup Items");
    assert_eq!(c.platform, "Apple Mac OS");
    assert_eq!(c.rb_cli, "rb-cli");
    assert_eq!(c.art_depth, "8");
    assert_eq!(c.sounds_dir, "/MacAtrium/sounds");
    assert!(matches!(Selection::default(), Selection::List { ref ids } if ids.is_empty()));
    assert_eq!(atrium::config::MAX_DISK_MB, 2048);
}
