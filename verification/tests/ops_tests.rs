use pjump::ops::{add_project, build_line, list_all_lines, list_selected_lines, project_dir};
use pjump::store::{Config, Project, StoreError};

fn sample() -> Config {
    let mut c = Config::new();
    add_project(&mut c, "a", "/home/me/a").unwrap();
    add_project(&mut c, "b", "/home/me/b").unwrap();
    c
}

#[test]
fn line_format_is_name_colon_dir() {
    let p = Project { dir: String::from("/srv/www"), name: String::from("web") };
    assert_eq!(build_line(&p), "web: /srv/www");
}

#[test]
fn list_all_prints_every_record_in_store_order() {
    let c = sample();
    assert_eq!(list_all_lines(&c), vec!["a: /home/me/a", "b: /home/me/b"]);
}

#[test]
fn list_with_mixed_found_and_missing_names() {
    let c = sample();
    let names = vec![String::from("a"), String::from("x")];
    let (lines, ok) = list_selected_lines(&c, &names);
    // the found name is still printed, and the command reports failure
    assert_eq!(lines, vec!["a: /home/me/a"]);
    assert!(!ok);
}

#[test]
fn list_with_all_names_found_in_request_order() {
    let c = sample();
    let names = vec![String::from("b"), String::from("a")];
    let (lines, ok) = list_selected_lines(&c, &names);
    assert_eq!(lines, vec!["b: /home/me/b", "a: /home/me/a"]);
    assert!(ok);
}

#[test]
fn list_with_no_requested_names_prints_nothing_and_succeeds() {
    let c = sample();
    let names: Vec<String> = Vec::new();
    let (lines, ok) = list_selected_lines(&c, &names);
    assert!(lines.is_empty());
    assert!(ok);
}

#[test]
fn go_or_open_of_unknown_name_is_not_found() {
    let c = sample();
    let r = project_dir(&c, "nope");
    assert_eq!(r, Err(StoreError::NotFound));
}

#[test]
fn repeated_requested_name_is_printed_each_time() {
    let c = sample();
    let names = vec![String::from("a"), String::from("a")];
    let (lines, ok) = list_selected_lines(&c, &names);
    assert_eq!(lines, vec!["a: /home/me/a", "a: /home/me/a"]);
    assert!(ok);
}
