use atrium::enrich::LbGame;
use atrium::fill::{best_by_key, fill_gaps, lb_facts, lb_score, match_title, mg_facts, wants_color, Facts};
use atrium::keyed::Keyed;
use atrium::merge::{record_json, Record};
use serde_json::Value;

fn obj(json: &str) -> Record {
    let v: serde_json::Map<String, Value> = serde_json::from_str(json).unwrap();
    let mut fields: Keyed<String> = Keyed::new();
    for (k, val) in v.iter() {
        fields.insert(k.clone(), serde_json::to_string(val).unwrap());
    }
    Record { id: v.get("id").and_then(|x| x.as_str()).map(String::from), fields }
}

fn game(name: &str, year: Option<i64>, publisher: Option<&str>) -> LbGame {
    LbGame {
        name: name.into(),
        year,
        publisher: publisher.map(String::from),
        genres: vec!["Action".into()],
        overview: Some("  A   castle. ".into()),
        database_id: "1".into(),
    }
}

#[test]
fn index_prefers_the_most_complete_record() {
    let games = vec![
        game("Prince of Persia (2008)", Some(2008), None),
        game("Prince of Persia (Brøderbund Software)", Some(1989), Some("Brøderbund")),
        game("Dark Castle", None, None),
    ];
    let keys: Vec<Vec<String>> = games.iter().map(|g| atrium::enrich::candidate_keys(&g.name)).collect();
    let scores: Vec<u8> = games.iter().map(lb_score).collect();
    assert_eq!(scores, vec![1, 2, 0]);
    let idx = best_by_key(&keys, &scores);
    assert_eq!(match_title("Prince of Persia", &idx), Some(1));
    assert_eq!(match_title("The Dark Castle", &idx), Some(2));
    assert_eq!(match_title("Unknown Title", &idx), None);
}

#[test]
fn fill_keeps_curated_values_unless_overwriting() {
    let rec = obj(r#"{"id":"dc","name":"Dark Castle","vendor":"Silicon Beach","genre":[]}"#);
    let f = lb_facts(&game("Dark Castle", Some(1986), Some("Three-Sixty")));
    let out = fill_gaps(&rec, &f, false);
    assert_eq!(
        record_json(&out),
        r#"{"desc":"A castle.","genre":["Action"],"id":"dc","name":"Dark Castle","vendor":"Silicon Beach","year":1986}"#
    );
    let out = fill_gaps(&rec, &f, true);
    assert_eq!(out.fields.get("vendor").unwrap(), "\"Three-Sixty\"");
    // a 1986 title takes no detected colour; a later one without colour does
    assert!(!wants_color(&out, false));
    let later = fill_gaps(&obj(r#"{"id":"x","year":1990}"#), &Facts { year: None, vendor: None, genres: vec![], desc: None, source: None }, false);
    assert!(wants_color(&later, false));
    assert!(!wants_color(&obj(r#"{"id":"x","year":1990,"color":true}"#), false));
    assert!(wants_color(&obj(r#"{"id":"x","year":1990,"color":true}"#), true));
}

#[test]
fn mg_facts_attribute_the_source_and_flatten_html() {
    let r = atrium::mg::MgRec {
        nid: 7,
        kind: "games".into(),
        title: "Zork".into(),
        year: Some(1980),
        vendor: Some("Infocom".into()),
        genres: vec!["Adventure".into()],
        desc_html: "<p>A <b>great</b> game</p>".into(),
        screenshots: vec![],
    };
    let f = mg_facts(&r);
    assert_eq!(f.source.as_deref(), Some("Macintosh Garden"));
    assert_eq!(f.desc.as_deref(), Some("A great game"));
    let out = fill_gaps(&obj(r#"{"id":"zork","name":"Zork"}"#), &f, false);
    assert_eq!(out.fields.get("source").unwrap(), "\"Macintosh Garden\"");
    assert_eq!(out.fields.get("year").unwrap(), "1980");
}
