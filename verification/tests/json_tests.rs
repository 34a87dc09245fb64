use pjump::json::{from_json, to_json};
use pjump::ops::add_project;
use pjump::store::{Config, Project, StoreError};

fn store_of(entries: &[(&str, &str)]) -> Config {
    let mut c = Config::new();
    for (name, dir) in entries.iter() {
        add_project(&mut c, name, dir).unwrap();
    }
    c
}

#[test]
fn empty_store_serializes_to_empty_array() {
    let c = Config::new();
    assert_eq!(to_json(&c), "{\"projects\":[]}");
}

#[test]
fn one_record_serializes_exactly() {
    let c = store_of(&[("foo", "/tmp")]);
    assert_eq!(to_json(&c), "{\"projects\":[{\"dir\":\"/tmp\",\"name\":\"foo\"}]}");
}

#[test]
fn two_records_serialize_in_name_order() {
    let c = store_of(&[("b", "/2"), ("a", "/1")]);
    assert_eq!(
        to_json(&c),
        "{\"projects\":[{\"dir\":\"/1\",\"name\":\"a\"},{\"dir\":\"/2\",\"name\":\"b\"}]}"
    );
}

#[test]
fn quotes_and_backslashes_are_escaped() {
    let c = Config {
        projects: vec![Project {
            dir: String::from("C:\\old \"stuff\""),
            name: String::from("q"),
        }],
    };
    assert_eq!(
        to_json(&c),
        "{\"projects\":[{\"dir\":\"C:\\\\old \\\"stuff\\\"\",\"name\":\"q\"}]}"
    );
}

#[test]
fn control_characters_are_escaped() {
    let c = Config {
        projects: vec![Project {
            dir: String::from("/a\nb\tc\u{1b}d"),
            name: String::from("n"),
        }],
    };
    assert_eq!(
        to_json(&c),
        "{\"projects\":[{\"dir\":\"/a\\nb\\tc\\u001bd\",\"name\":\"n\"}]}"
    );
}

#[test]
fn round_trip_keeps_every_record() {
    let c = store_of(&[
        ("plain", "/simple/path"),
        ("quoted\"name", "/dir with \"quotes\""),
        ("back\\slash", "C:\\temp"),
        ("control\u{1}\u{1f}", "/ctl\r\n"),
        ("unicode \u{e9}\u{4e2d}", "/caf\u{e9}"),
    ]);
    let text = to_json(&c);
    let back = from_json(&text).expect("saved store must load");
    assert_eq!(back.projects.len(), c.projects.len());
    for (p, q) in c.projects.iter().zip(back.projects.iter()) {
        assert_eq!(p.name, q.name);
        assert_eq!(p.dir, q.dir);
    }
}

#[test]
fn round_trip_of_empty_store() {
    let c = Config::new();
    let back = from_json(&to_json(&c)).unwrap();
    assert_eq!(back.projects.len(), 0);
}

#[test]
fn reload_still_rejects_duplicate_names() {
    let c = store_of(&[("foo", "/tmp")]);
    let text = to_json(&c);
    let mut back = from_json(&text).unwrap();
    let r = add_project(&mut back, "foo", "/other");
    assert_eq!(r, Err(StoreError::DuplicateName));
}

#[test]
fn parser_accepts_whitespace_and_either_field_order() {
    let text = " {\n\t\"projects\" :\r [ { \"name\" : \"a\" , \"dir\" : \"/x\" } ] } ";
    let c = from_json(text).unwrap();
    assert_eq!(c.projects.len(), 1);
    assert_eq!(c.projects[0].name, "a");
    assert_eq!(c.projects[0].dir, "/x");
}

#[test]
fn parser_decodes_standard_escapes() {
    let text = "{\"projects\":[{\"dir\":\"\\u0041\\/\\b\\f\\n\\r\\t\\\\\\\"\",\"name\":\"e\"}]}";
    let c = from_json(text).unwrap();
    assert_eq!(c.projects[0].dir, "A/\u{8}\u{c}\n\r\t\\\"");
}

#[test]
fn parser_rejects_malformed_text() {
    assert!(from_json("").is_none());
    assert!(from_json("not json").is_none());
    assert!(from_json("{\"projects\":}").is_none());
    assert!(from_json("{\"projects\":[").is_none());
    assert!(from_json("{\"other\":[]}").is_none());
    // a record must have the two fields dir and name, each exactly once
    assert!(from_json("{\"projects\":[{\"dir\":\"/a\"}]}").is_none());
    assert!(from_json("{\"projects\":[{\"dir\":\"/a\",\"dir\":\"/b\"}]}").is_none());
    assert!(from_json("{\"projects\":[{\"dir\":\"/a\",\"name\":\"n\",\"x\":\"y\"}]}").is_none());
    // nothing may follow the closing brace
    assert!(from_json("{\"projects\":[]} trailing").is_none());
    // a raw control character inside a string is not JSON
    assert!(from_json("{\"projects\":[{\"dir\":\"/a\u{1}\",\"name\":\"n\"}]}").is_none());
    // an unterminated string
    assert!(from_json("{\"projects\":[{\"dir\":\"/a,\"name\":\"n\"}]}").is_none());
}

#[test]
fn parser_accepts_several_records_with_separators() {
    let text = "{\"projects\":[{\"dir\":\"/1\",\"name\":\"a\"} , {\"name\":\"b\",\"dir\":\"/2\"}]}";
    let c = from_json(text).unwrap();
    assert_eq!(c.projects.len(), 2);
    assert_eq!(c.projects[0].name, "a");
    assert_eq!(c.projects[1].dir, "/2");
}
