use atrium::keyed::Keyed;
use atrium::merge::{apply, merge_catalog, merge_overlay, missing, record_json, record_text_in, set_override, upsert_records, Line, MergeReport, Record};
use serde_json::Value;

fn obj(json: &str) -> Record {
    let v: serde_json::Map<String, Value> = serde_json::from_str(json).unwrap();
    let mut fields: Keyed<String> = Keyed::new();
    for (k, val) in v.iter() {
        fields.insert(k.clone(), serde_json::to_string(val).unwrap());
    }
    Record { id: v.get("id").and_then(|x| x.as_str()).map(String::from), fields }
}

fn field(r: &Record, k: &str) -> Option<String> {
    r.fields.get(k).cloned()
}

#[test]
fn overlay_wins_by_default() {
    let mut base = obj(r#"{"id":"x","year":1990,"vendor":"Old"}"#);
    let ov = obj(r#"{"id":"x","vendor":"New","color":true}"#);
    let n = apply(&mut base.fields, &ov.fields, false);
    assert_eq!(n, 2); // vendor changed + color added
    assert_eq!(field(&base, "vendor").unwrap(), "\"New\"");
    assert_eq!(field(&base, "color").unwrap(), "true");
    assert_eq!(field(&base, "year").unwrap(), "1990"); // untouched
}

#[test]
fn fill_missing_keeps_existing() {
    let mut base = obj(r#"{"id":"x","vendor":"Curated"}"#);
    let ov = obj(r#"{"id":"x","vendor":"LB","mouse":true}"#);
    let n = apply(&mut base.fields, &ov.fields, true);
    assert_eq!(n, 1); // only mouse added; vendor kept
    assert_eq!(field(&base, "vendor").unwrap(), "\"Curated\"");
    assert_eq!(field(&base, "mouse").unwrap(), "true");
}

#[test]
fn fill_missing_fills_null_and_empty_fields() {
    let mut base = obj(r#"{"id":"x","vendor":null,"genres":[],"desc":"","year":1990}"#);
    let ov = obj(r#"{"id":"y","vendor":"V","genres":["Action"],"desc":"D","year":1991}"#);
    let n = apply(&mut base.fields, &ov.fields, true);
    assert_eq!(n, 3);
    assert_eq!(field(&base, "id").unwrap(), "\"x\"");
    assert_eq!(field(&base, "year").unwrap(), "1990");
    assert_eq!(field(&base, "genres").unwrap(), "[\"Action\"]");
}

#[test]
fn merge_catalog_replaces_appends_and_caps() {
    let existing = vec![obj(r#"{"id":"a","name":"A"}"#), obj(r#"{"id":"b","name":"B"}"#)];
    let added = vec![obj(r#"{"id":"b","name":"B2"}"#), obj(r#"{"name":"no id"}"#), obj(r#"{"id":"c","name":"C"}"#)];
    let (m, a, u) = merge_catalog(existing, added).unwrap();
    assert_eq!((a, u), (1, 1));
    assert_eq!(m.len(), 3);
    assert_eq!(field(&m[1], "name").unwrap(), "\"B2\"");
    assert_eq!(m[2].id.as_deref(), Some("c"));
    let many: Vec<Record> = (0..257).map(|i| obj(&format!("{{\"id\":\"t{i}\"}}"))).collect();
    let err = merge_catalog(vec![], many).unwrap_err();
    assert_eq!(err.items, 257);
}

#[test]
fn missing_detects_absent_null_empty() {
    let obj = obj(r#"{"a":"x","b":"","c":[],"d":null,"e":["g"]}"#);
    assert!(missing(&obj.fields, "z")); // absent
    assert!(missing(&obj.fields, "b")); // empty string
    assert!(missing(&obj.fields, "c")); // empty array
    assert!(missing(&obj.fields, "d")); // null
    assert!(!missing(&obj.fields, "a"));
    assert!(!missing(&obj.fields, "e"));
}

#[test]
fn upsert_replaces_by_id_and_keeps_everything_else() {
    let base = vec![
        Line::Raw("# a comment".into()),
        Line::Rec(obj(r#"{"id":"other","name":"Other"}"#)),
        Line::Rec(obj(r#"{"id":"dark-castle","name":"Old","app":"Apps/Old/Old"}"#)),
    ];
    let rec = obj(r#"{"id":"dark-castle","name":"Dark Castle","app":"Apps/Dark Castle/DC Launcher","local_src":"/stage/dark-castle"}"#);
    let out = upsert_records(&base, &vec![rec]);
    let txt: String = out
        .iter()
        .map(|l| match l {
            Line::Raw(t) => t.clone(),
            Line::Rec(r) => record_json(r),
        })
        .collect::<Vec<_>>()
        .join("\n");
    assert!(txt.starts_with("# a comment"), "comments survive");
    assert_eq!(txt.matches("\"dark-castle\"").count(), 1, "no duplicate record");
    assert!(txt.contains("DC Launcher"), "the record was updated");
    assert!(!txt.contains("Apps/Old/Old"), "the stale app path is gone");
    // upserting again changes nothing
    let again = upsert_records(&out, &vec![obj(r#"{"id":"dark-castle","name":"Dark Castle","app":"Apps/Dark Castle/DC Launcher","local_src":"/stage/dark-castle"}"#)]);
    assert_eq!(again.len(), out.len());
    let new = upsert_records(&out, &vec![obj(r#"{"id":"new","name":"N"}"#)]);
    assert_eq!(new.len(), out.len() + 1);
}

#[test]
fn record_json_is_compact_json() {
    let r = obj(r#"{"id":"x","year":1990,"genre":["A","B"],"name":"X \"q\""}"#);
    let t = record_json(&r);
    let v: serde_json::Value = serde_json::from_str(&t).unwrap();
    assert_eq!(v.to_string(), t);
}

#[test]
fn overlay_merge_applies_last_override_and_appends_complete_titles() {
    let base = vec![
        Line::Raw("# c".into()),
        Line::Rec(obj(r#"{"id":"x","year":1990,"vendor":"Old"}"#)),
        Line::Rec(obj(r#"{"id":"y","name":"Y"}"#)),
    ];
    let ov = vec![
        obj(r#"{"id":"x","vendor":"Mid"}"#),
        obj(r#"{"id":"z","name":"Z","app":"Apps/Z/Z"}"#),
        obj(r#"{"id":"x","vendor":"New","color":true}"#),
        obj(r#"{"id":"w","maxDepth":8}"#),
    ];
    let (out, rep) = merge_overlay(&base, &ov, false).unwrap();
    assert_eq!(rep, MergeReport { applied: 1, changed: 2, added: 1, skipped: 1 });
    assert_eq!(out.len(), 4);
    assert!(matches!(&out[0], Line::Raw(t) if t == "# c"));
    match &out[1] {
        Line::Rec(r) => {
            assert_eq!(field(r, "vendor").unwrap(), "\"New\"");
            assert_eq!(field(r, "color").unwrap(), "true");
            assert_eq!(field(r, "year").unwrap(), "1990");
        }
        _ => panic!("a record"),
    }
    assert!(matches!(&out[3], Line::Rec(r) if r.id.as_deref() == Some("z")));
    let bad = vec![obj(r#"{"id":"a"}"#), obj(r#"{"name":"no id"}"#)];
    assert_eq!(merge_overlay(&base, &bad, false).unwrap_err(), 1);
    assert_eq!(record_text_in("  # note "), None);
    assert_eq!(record_text_in("  {\"id\":\"a\"} "), Some("{\"id\":\"a\"}".to_string()));
}

#[test]
fn set_updates_an_override_in_place_or_adds_one() {
    let base = vec![Line::Raw("# overrides".into()), Line::Rec(obj(r#"{"id":"x","color":false,"vendor":"V"}"#))];
    let f = obj(r#"{"color":true,"mouse":true}"#).fields;
    let (out, found, changed) = set_override(&base, "x", &f);
    assert!(found);
    assert_eq!(changed, 2);
    assert_eq!(out.len(), 2);
    match &out[1] {
        Line::Rec(r) => {
            assert_eq!(record_json(r), r#"{"color":true,"id":"x","mouse":true,"vendor":"V"}"#);
        }
        _ => panic!("a record"),
    }
    let (out, found, changed) = set_override(&base, "new-one", &f);
    assert!(!found);
    assert_eq!(changed, 2);
    match &out[2] {
        Line::Rec(r) => assert_eq!(record_json(r), r#"{"color":true,"id":"new-one","mouse":true}"#),
        _ => panic!("a record"),
    }
}
