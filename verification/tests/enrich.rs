use atrium::enrich::{parse_games, GameScan, ImageScan, XmlEvent};
use atrium::enrich::{candidate_keys, clamp_desc, is_color_image, normalize, strip_version, year_of};

#[test]
fn normalizes_titles() {
    assert_eq!(normalize("Prince of Persia"), "prince of persia");
    assert_eq!(normalize("SimCity"), "simcity");
    assert_eq!(normalize("Maze Wars+"), "maze wars");
    assert_eq!(normalize("Déjà Vu"), "deja vu");
    assert_eq!(normalize("Shufflepuck Café"), "shufflepuck cafe");
    assert_eq!(normalize("  The   Hobbit  "), "the hobbit");
}

#[test]
fn candidate_keys_handle_qualifiers_and_subtitles() {
    assert!(candidate_keys("Prince of Persia (Brøderbund Software)").contains(&"prince of persia".to_string()));
    assert!(candidate_keys("Deja Vu: A Nightmare Comes True!!").contains(&"deja vu".to_string()));
    assert!(!candidate_keys("Prince of Persia 2").contains(&"prince of persia".to_string()));
}

#[test]
fn candidate_keys_handle_articles() {
    assert!(candidate_keys("The Ancient Art of War").contains(&"ancient art of war".to_string()));
    assert!(candidate_keys("Ancient Art of War").contains(&"ancient art of war".to_string()));
    assert!(candidate_keys("Hobbit, The").contains(&"hobbit".to_string()));
    assert!(candidate_keys("The Hobbit").contains(&"hobbit".to_string()));
}

#[test]
fn candidate_keys_handle_versions() {
    assert!(candidate_keys("Glider 4.0").contains(&"glider".to_string()));
    assert_eq!(strip_version("Glider 4.0"), "Glider");
    assert_eq!(strip_version("Prince of Persia 2"), "Prince of Persia 2");
}

#[test]
fn year_prefers_releaseyear_then_date() {
    assert_eq!(year_of(Some("1989"), None), Some(1989));
    assert_eq!(year_of(None, Some("1991-05-22T00:00:00+00:00")), Some(1991));
}

#[test]
fn candidate_keys_have_no_repeats_or_empties() {
    let k = candidate_keys("Dark Castle");
    assert_eq!(k, vec!["dark castle".to_string()]);
    assert!(candidate_keys("").is_empty());
}

#[test]
fn year_of_release_year_wins_over_date() {
    assert_eq!(year_of(Some("1987"), Some("1991-01-01")), Some(1987));
    assert_eq!(year_of(None, None), None);
}

#[test]
fn clamp_desc_keeps_short_text() {
    assert_eq!(clamp_desc("A short blurb."), "A short blurb.");
}

#[test]
fn grey_pixels_are_not_colour() {
    let grey: Vec<u8> = vec![128; 3 * 100];
    assert!(!is_color_image(&grey, 10, 10));
    let mut red = grey.clone();
    for p in 0..100 {
        red[3 * p] = 255;
        red[3 * p + 1] = 0;
        red[3 * p + 2] = 0;
    }
    assert!(is_color_image(&red, 10, 10));
}

fn start(n: &str) -> XmlEvent {
    XmlEvent::Start(n.as_bytes().to_vec())
}
fn end(n: &str) -> XmlEvent {
    XmlEvent::End(n.as_bytes().to_vec())
}
fn text(t: &str) -> XmlEvent {
    XmlEvent::Text(t.to_string())
}
fn field(n: &str, t: &str) -> Vec<XmlEvent> {
    vec![start(n), text(t), end(n)]
}

#[test]
fn game_scan_keeps_games_on_the_platform() {
    let mut evs = vec![start("LaunchBox"), start("Game")];
    evs.extend(field("Name", "Dark Castle"));
    evs.extend(field("Platform", "Apple Mac OS"));
    evs.extend(field("ReleaseDate", "1986-01-01T00:00:00"));
    evs.extend(field("Genres", "Action; Platform;"));
    evs.extend(vec![start("Publisher"), text(" Silicon "), text("Beach "), end("Publisher")]);
    evs.extend(field("Notes", "ignored"));
    evs.extend(field("DatabaseID", " 42 "));
    evs.push(end("Game"));
    evs.push(start("Game"));
    evs.extend(field("Name", "Elsewhere"));
    evs.extend(field("Platform", "Atari ST"));
    evs.extend(field("DatabaseID", "7"));
    evs.push(end("Game"));
    evs.push(start("Game"));
    evs.extend(field("Platform", "Apple Mac OS"));
    evs.extend(field("DatabaseID", "8"));
    evs.push(end("Game"));
    evs.push(XmlEvent::Eof);
    let mut scan = GameScan::new();
    for ev in &evs {
        scan = scan.step(ev, "Apple Mac OS");
    }
    assert_eq!(scan.games.len(), 1);
    let g = &scan.games[0];
    assert_eq!(g.name, "Dark Castle");
    assert_eq!(g.year, Some(1986));
    assert_eq!(g.publisher.as_deref(), Some("Silicon Beach"));
    assert_eq!(g.genres, vec!["Action".to_string(), "Platform".to_string()]);
    assert!(g.overview.is_none());
    assert_eq!(g.database_id, "42");
}

fn image(id: &str, file: &str, ty: &str) -> Vec<XmlEvent> {
    let mut v = vec![start("GameImage")];
    v.extend(field("DatabaseID", id));
    v.extend(field("FileName", file));
    v.extend(field("Type", ty));
    v.push(end("GameImage"));
    v
}

#[test]
fn image_scan_prefers_box_front_and_gameplay_screenshots() {
    let mut evs = Vec::new();
    evs.extend(image("42", " a.png ", "Box - Front"));
    evs.extend(image("42", "b.png", "Screenshot - Game Title"));
    evs.extend(image("42", "c.png", "Screenshot - Gameplay"));
    evs.extend(image("42", "d.png", "Screenshot - Gameplay"));
    evs.extend(image("42", "e.png", "Fanart - Background"));
    evs.extend(image("7", "x.png", "Box - Front"));
    evs.extend(image("9", "y.png", "Clear Logo"));
    evs.push(XmlEvent::Eof);
    let wanted = vec!["42".to_string(), "9".to_string()];
    let mut scan = ImageScan::new();
    for ev in &evs {
        scan = scan.step(ev, &wanted);
    }
    let s = scan.images.get("42").unwrap();
    assert_eq!(s.box_front.as_deref(), Some("a.png"));
    assert_eq!(s.screenshot.as_deref(), Some("c.png"));
    assert!(scan.images.get("7").is_none());
    // a wanted id gets an entry even for an image type that is not kept
    let s9 = scan.images.get("9").unwrap();
    assert!(s9.box_front.is_none() && s9.screenshot.is_none());
}

#[test]
fn parse_games_reads_the_xml_and_keeps_the_platform() {
    let xml = b"<?xml version=\"1.0\"?>\n<LaunchBox>\n  <Game>\n    <Name>Dark Castle</Name>\n    <Platform>Apple Mac OS</Platform>\n    <DatabaseID> 42 </DatabaseID>\n  </Game>\n  <Game>\n    <Name>Other</Name>\n    <Platform>DOS</Platform>\n    <DatabaseID>7</DatabaseID>\n  </Game>\n</LaunchBox>\n";
    let games = parse_games(xml, "Apple Mac OS").unwrap();
    assert_eq!(games.len(), 1);
    assert_eq!(games[0].name, "Dark Castle");
    assert_eq!(games[0].database_id, "42");
    assert!(parse_games(b"<a><b></a>", "Apple Mac OS").is_err());
}
