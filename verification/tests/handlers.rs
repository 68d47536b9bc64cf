use cookie_todo::codec::encode;
use cookie_todo::entry::{Entry, FormError, MutateError};
use cookie_todo::form::decode_update_form;
use cookie_todo::handlers::{create_entry, mutate};
use cookie_todo::jar::CookieJar;
use cookie_todo::store::load_all;

fn entry(finished: bool, name: &str, description: &str) -> Entry {
    Entry { finished, name: String::from(name), description: String::from(description) }
}

fn jar_of(cookies: &[(&str, String)]) -> CookieJar {
    let mut jar = CookieJar::new();
    for (name, value) in cookies {
        jar.set(String::from(*name), value.clone());
    }
    jar
}

fn fields(pairs: &[(&str, &str)]) -> Vec<(String, String)> {
    pairs.iter().map(|(k, v)| (String::from(*k), String::from(*v))).collect()
}

#[test]
fn create_allocates_the_cookie_count_as_id() {
    let mut jar = jar_of(&[
        ("0", encode(&entry(false, "A", ""))),
        ("3", encode(&entry(true, "B", ""))),
    ]);
    let id = create_entry(&mut jar);
    assert_eq!(id, 2);
    let set = load_all(&jar).unwrap();
    let fresh = set.get(2).unwrap();
    assert_eq!(fresh.finished, false);
    assert_eq!(fresh.name, "");
    assert_eq!(fresh.description, "");
}

#[test]
fn create_on_an_empty_jar_starts_at_zero() {
    let mut jar = CookieJar::new();
    assert_eq!(create_entry(&mut jar), 0);
    assert_eq!(create_entry(&mut jar), 1);
    let set = load_all(&jar).unwrap();
    assert_eq!(set.len(), 2);
}

#[test]
fn delete_removes_the_entry() {
    let mut jar = jar_of(&[
        ("0", encode(&entry(false, "A", ""))),
        ("1", encode(&entry(true, "B", "x"))),
    ]);
    let form = fields(&[("name", "A"), ("description", ""), ("command", "Delete")]);
    mutate(&mut jar, 1, &form).unwrap();
    let set = load_all(&jar).unwrap();
    assert!(set.get(1).is_none());
    assert!(set.get(0).is_some());
    assert_eq!(set.len(), 1);
}

#[test]
fn update_preserves_the_id_and_rewrites_the_fields() {
    let mut jar = jar_of(&[
        ("0", encode(&entry(false, "A", ""))),
        ("1", encode(&entry(false, "B", "x"))),
    ]);
    let form = fields(&[
        ("finished", "true"),
        ("name", "n"),
        ("description", "d"),
        ("command", "Update"),
    ]);
    mutate(&mut jar, 1, &form).unwrap();
    let set = load_all(&jar).unwrap();
    let updated = set.get(1).unwrap();
    assert_eq!(updated.finished, true);
    assert_eq!(updated.name, "n");
    assert_eq!(updated.description, "d");
    let untouched = set.get(0).unwrap();
    assert_eq!(untouched.name, "A");
}

#[test]
fn a_missing_checkbox_means_unfinished() {
    let mut jar = jar_of(&[("0", encode(&entry(true, "A", "")))]);
    let form = fields(&[("name", "A"), ("description", ""), ("command", "Update")]);
    mutate(&mut jar, 0, &form).unwrap();
    let set = load_all(&jar).unwrap();
    assert_eq!(set.get(0).unwrap().finished, false);
}

#[test]
fn mutate_refuses_an_absent_id() {
    let mut jar = jar_of(&[("0", encode(&entry(false, "A", "")))]);
    let form = fields(&[("name", "A"), ("description", ""), ("command", "Delete")]);
    assert_eq!(mutate(&mut jar, 5, &form), Err(MutateError::NotFound));
    let set = load_all(&jar).unwrap();
    assert_eq!(set.len(), 1);
}

#[test]
fn mutate_refuses_a_bad_form() {
    let mut jar = jar_of(&[("0", encode(&entry(false, "A", "")))]);
    let no_name = fields(&[("description", ""), ("command", "Delete")]);
    assert_eq!(
        mutate(&mut jar, 0, &no_name),
        Err(MutateError::BadForm(FormError::MissingField))
    );
    let bad_command = fields(&[("name", "A"), ("description", ""), ("command", "Archive")]);
    assert_eq!(
        mutate(&mut jar, 0, &bad_command),
        Err(MutateError::BadForm(FormError::BadCommand))
    );
}

#[test]
fn the_form_reader_takes_both_commands() {
    let update = fields(&[
        ("finished", "true"),
        ("name", "n"),
        ("description", "d"),
        ("command", "Update"),
    ]);
    let (e, cmd) = decode_update_form(&update).unwrap();
    assert_eq!(e.finished, true);
    assert_eq!(e.name, "n");
    assert_eq!(e.description, "d");
    assert_eq!(cmd, cookie_todo::entry::Command::Update);

    let delete = fields(&[("name", ""), ("description", ""), ("command", "Delete")]);
    let (e, cmd) = decode_update_form(&delete).unwrap();
    assert_eq!(e.finished, false);
    assert_eq!(cmd, cookie_todo::entry::Command::Delete);
}

#[test]
fn the_form_reader_names_each_failure() {
    let no_description = fields(&[("name", "n"), ("command", "Update")]);
    assert!(matches!(decode_update_form(&no_description), Err(FormError::MissingField)));
    let no_command = fields(&[("name", "n"), ("description", "d")]);
    assert!(matches!(decode_update_form(&no_command), Err(FormError::MissingField)));
    let bad_command = fields(&[("name", "n"), ("description", "d"), ("command", "update")]);
    assert!(matches!(decode_update_form(&bad_command), Err(FormError::BadCommand)));
}
