use cookie_todo::codec::encode;
use cookie_todo::entry::{Entry, ParseError};
use cookie_todo::jar::CookieJar;
use cookie_todo::render::render;
use cookie_todo::store::load_all;

fn entry(finished: bool, name: &str, description: &str) -> Entry {
    Entry { finished, name: String::from(name), description: String::from(description) }
}

fn jar_of(cookies: &[(&str, String)]) -> CookieJar {
    let mut jar = CookieJar::new();
    for (name, value) in cookies {
        jar.set(String::from(*name), value.clone());
    }
    jar
}

#[test]
fn empty_jar_renders_empty_page() {
    let jar = CookieJar::new();
    let set = load_all(&jar).unwrap();
    assert_eq!(set.len(), 0);
    let page = render(&set);
    assert!(page.contains("<title>Todo | [0 / 0]</title>"));
    assert!(!page.contains("<li>"));
}

#[test]
fn two_entry_jar_renders_counts_and_items_in_id_order() {
    let jar = jar_of(&[
        ("0", encode(&entry(false, "A", ""))),
        ("1", encode(&entry(true, "B", "x"))),
    ]);
    let set = load_all(&jar).unwrap();
    assert_eq!(set.len(), 2);
    let page = render(&set);
    assert!(page.contains("<title>Todo | [1 / 2]</title>"));
    let first = page.find("action=\"/update/0\"").unwrap();
    let second = page.find("action=\"/update/1\"").unwrap();
    assert!(first < second);
}

#[test]
fn rendering_ignores_cookie_header_order() {
    let forward = jar_of(&[
        ("0", encode(&entry(false, "A", ""))),
        ("3", encode(&entry(true, "B", "x"))),
    ]);
    let backward = jar_of(&[
        ("3", encode(&entry(true, "B", "x"))),
        ("0", encode(&entry(false, "A", ""))),
    ]);
    let page_forward = render(&load_all(&forward).unwrap());
    let page_backward = render(&load_all(&backward).unwrap());
    assert_eq!(page_forward, page_backward);
    let first = page_forward.find("action=\"/update/0\"").unwrap();
    let second = page_forward.find("action=\"/update/3\"").unwrap();
    assert!(first < second);
}

#[test]
fn rendered_texts_are_escaped() {
    let jar = jar_of(&[("0", encode(&entry(false, "<script>\"&", "it's a 1 > 0 thing")))]);
    let page = render(&load_all(&jar).unwrap());
    assert!(page.contains("value=\"&lt;script&gt;&quot;&amp;\""));
    assert!(page.contains("value=\"it&#39;s a 1 &gt; 0 thing\""));
    assert!(!page.contains("<script>"));
}

#[test]
fn load_all_rejects_a_bad_cookie_name() {
    let jar = jar_of(&[("session", String::from("opaque"))]);
    assert_eq!(load_all(&jar).unwrap_err(), ParseError::InvalidId);
    let jar = jar_of(&[("-1", encode(&entry(false, "A", "")))]);
    assert_eq!(load_all(&jar).unwrap_err(), ParseError::InvalidId);
    let jar = jar_of(&[("", encode(&entry(false, "A", "")))]);
    assert_eq!(load_all(&jar).unwrap_err(), ParseError::InvalidId);
}

#[test]
fn load_all_rejects_a_bad_cookie_value() {
    let jar = jar_of(&[("0", String::from("not an entry"))]);
    assert_eq!(load_all(&jar).unwrap_err(), ParseError::InvalidEntry);
}

#[test]
fn load_all_rejects_an_id_too_large_for_this_machine() {
    let jar = jar_of(&[("340282366920938463463374607431768211456", encode(&entry(false, "A", "")))]);
    assert_eq!(load_all(&jar).unwrap_err(), ParseError::InvalidId);
}

#[test]
fn a_leading_zero_still_names_the_same_id() {
    let jar = jar_of(&[("07", encode(&entry(true, "seven", "")))]);
    let set = load_all(&jar).unwrap();
    assert_eq!(set.len(), 1);
    assert_eq!(set.id_at(0), 7);
}

#[test]
fn two_spellings_of_one_id_leave_the_later_cookie() {
    let jar = jar_of(&[
        ("0", encode(&entry(false, "first", ""))),
        ("00", encode(&entry(true, "second", ""))),
    ]);
    let set = load_all(&jar).unwrap();
    assert_eq!(set.len(), 1);
    assert_eq!(set.get(0).unwrap().name, "second");
}

#[test]
fn load_all_reads_ids_and_entries() {
    let jar = jar_of(&[
        ("7", encode(&entry(true, "late", "d7"))),
        ("2", encode(&entry(false, "early", "d2"))),
    ]);
    let set = load_all(&jar).unwrap();
    assert_eq!(set.len(), 2);
    assert_eq!(set.id_at(0), 2);
    assert_eq!(set.entry_at(0).name, "early");
    assert_eq!(set.id_at(1), 7);
    assert_eq!(set.entry_at(1).finished, true);
    let got = set.get(7).unwrap();
    assert_eq!(got.description, "d7");
    assert!(set.get(3).is_none());
}
