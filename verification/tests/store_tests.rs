use pjump::ops::{add_project, list_all_lines, project_dir};
use pjump::store::{Config, Project, StoreError};
use pjump::text::{str_eq, str_lt};

#[test]
fn empty_store_lists_nothing() {
    let c = Config::new();
    let lines = list_all_lines(&c);
    assert!(lines.is_empty());
}

#[test]
fn insert_then_find() {
    let mut c = Config::new();
    let r = add_project(&mut c, "foo", "/tmp");
    assert!(r.is_ok());
    let p = c.find_by_name("foo").unwrap();
    assert_eq!(p.name, "foo");
    assert_eq!(p.dir, "/tmp");
    assert!(c.find_by_name("bar").is_none());
}

#[test]
fn add_then_go_resolves_to_registered_dir() {
    let mut c = Config::new();
    add_project(&mut c, "foo", "/tmp").unwrap();
    let d = project_dir(&c, "foo").unwrap();
    assert_eq!(d, "/tmp");
}

#[test]
fn duplicate_add_rejected_and_store_unchanged() {
    let mut c = Config::new();
    add_project(&mut c, "foo", "/tmp").unwrap();
    let r = add_project(&mut c, "foo", "/elsewhere");
    assert_eq!(r, Err(StoreError::DuplicateName));
    assert_eq!(c.projects.len(), 1);
    assert_eq!(c.find_by_name("foo").unwrap().dir, "/tmp");
}

#[test]
fn inserts_keep_name_order() {
    let mut c = Config::new();
    add_project(&mut c, "bravo", "/b").unwrap();
    add_project(&mut c, "alpha", "/a").unwrap();
    add_project(&mut c, "charlie", "/c").unwrap();
    let lines = list_all_lines(&c);
    assert_eq!(lines, vec!["alpha: /a", "bravo: /b", "charlie: /c"]);
}

#[test]
fn remove_returns_record_or_not_found() {
    let mut c = Config::new();
    add_project(&mut c, "foo", "/tmp").unwrap();
    let gone = c.remove_by_name("foo").unwrap();
    assert_eq!(gone.name, "foo");
    assert_eq!(gone.dir, "/tmp");
    assert_eq!(c.projects.len(), 0);
    let r = c.remove_by_name("foo");
    assert!(matches!(r, Err(StoreError::NotFound)));
}

#[test]
fn remove_of_many_names_stops_at_first_missing() {
    let mut c = Config::new();
    add_project(&mut c, "a", "/a").unwrap();
    add_project(&mut c, "c", "/c").unwrap();
    // remove a b c: a goes through, b aborts, c is never attempted
    let names = ["a", "b", "c"];
    let mut failed: Option<&str> = None;
    for n in names.iter() {
        match c.remove_by_name(n) {
            Ok(_) => (),
            Err(StoreError::NotFound) => {
                failed = Some(n);
                break;
            },
            Err(e) => panic!("unexpected error {:?}", e),
        }
    }
    assert_eq!(failed, Some("b"));
    assert!(c.find_by_name("a").is_none());
    assert!(c.find_by_name("c").is_some());
}

#[test]
fn position_by_name_gives_first_index() {
    let mut c = Config::new();
    add_project(&mut c, "x", "/1").unwrap();
    add_project(&mut c, "y", "/2").unwrap();
    assert_eq!(c.position_by_name("x"), Some(0));
    assert_eq!(c.position_by_name("y"), Some(1));
    assert_eq!(c.position_by_name("z"), None);
}

#[test]
fn string_order_and_equality() {
    assert!(str_lt("abc", "abd"));
    assert!(str_lt("ab", "abc"));
    assert!(!str_lt("abc", "abc"));
    assert!(!str_lt("b", "a"));
    assert!(str_lt("Z", "a"));
    assert!(str_eq("", ""));
    assert!(str_eq("pj", "pj"));
    assert!(!str_eq("pj", "pJ"));
}

#[test]
fn direct_project_literals_work_with_lookup() {
    let c = Config {
        projects: vec![
            Project { dir: String::from("/a"), name: String::from("a") },
            Project { dir: String::from("/b"), name: String::from("b") },
        ],
    };
    assert_eq!(c.find_by_name("b").unwrap().dir, "/b");
}
