use std::collections::HashMap;

use ip_manager::entry::Entry;
use ip_manager::store::{fetch_or_create, issue};

fn entry(ip: &str, using: bool, ports: Vec<u32>) -> Entry {
    Entry { ip: ip.to_string(), domain: None, using, open_ports: ports, description: None }
}

#[test]
fn create_then_fetch_gives_the_created_entry() {
    let mut dir: HashMap<String, String> = HashMap::new();
    let (e, w) = Entry::new("10.0.0.1");
    assert_eq!(w.file_name, "10-0-0-1.toml");
    dir.insert(w.file_name.clone(), w.contents.clone());
    let got = Entry::from_ip(dir.get("10-0-0-1.toml").cloned()).unwrap();
    assert_eq!(got.ip, e.ip);
    assert_eq!(got.ip, "10.0.0.1");
    assert_eq!(got.domain, None);
    assert!(!got.using);
    assert!(got.open_ports.is_empty());
    assert_eq!(got.description, None);
}

#[test]
fn fetch_of_missing_or_corrupt_record_is_absent() {
    assert!(Entry::from_ip(None).is_none());
    assert!(Entry::from_ip(Some("not a record".to_string())).is_none());
}

#[test]
fn fetch_or_create_keeps_an_existing_entry() {
    let mut e = entry("10.0.0.2", true, vec![22]);
    e.set_domain(Some("db".to_string()));
    let (got, write) = fetch_or_create("10.0.0.2", Some(e.save().contents));
    assert!(write.is_none());
    assert_eq!(got.domain, Some("db".to_string()));
    assert_eq!(got.open_ports, vec![22]);
}

#[test]
fn fetch_or_create_creates_a_missing_entry() {
    let (got, write) = fetch_or_create("10.0.0.3", None);
    let w = write.unwrap();
    assert_eq!(w.file_name, "10-0-0-3.toml");
    assert_eq!(w.contents, "ip = '10.0.0.3'\nusing = false\nopen_ports = []\n");
    assert_eq!(got.ip, "10.0.0.3");
}

#[test]
fn delete_removes_retrievability() {
    let mut dir: HashMap<String, String> = HashMap::new();
    let (e, w) = Entry::new("10.0.0.4");
    dir.insert(w.file_name, w.contents);
    assert!(Entry::from_ip(dir.get(&e.delete()).cloned()).is_some());
    dir.remove(&e.delete());
    assert!(Entry::from_ip(dir.get(&record_name("10.0.0.4")).cloned()).is_none());
}

fn record_name(ip: &str) -> String {
    ip_manager::path::record_file_name(ip)
}

#[test]
fn create_on_existing_ip_resets_it() {
    let mut dir: HashMap<String, String> = HashMap::new();
    let mut e = entry("10.0.0.5", true, vec![80, 443]);
    e.set_domain(Some("web".to_string()));
    e.set_description(Some("front".to_string()));
    let w = e.save();
    dir.insert(w.file_name, w.contents);
    let (fresh, w2) = Entry::new("10.0.0.5");
    assert_eq!(w2.file_name, record_name("10.0.0.5"));
    dir.insert(w2.file_name, w2.contents);
    let got = Entry::from_ip(dir.get(&record_name("10.0.0.5")).cloned()).unwrap();
    assert_eq!(got.ip, fresh.ip);
    assert_eq!(got.domain, None);
    assert!(!got.using);
    assert!(got.open_ports.is_empty());
    assert_eq!(got.description, None);
}

#[test]
fn save_then_fetch_gives_the_saved_entry() {
    let mut e = entry("10.0.0.6", false, vec![]);
    e.toggle_using();
    e.add_ports(&vec![Some("8080".to_string()), None, Some("+22".to_string())]).unwrap();
    let got = Entry::from_ip(Some(e.save().contents)).unwrap();
    assert!(got.using);
    assert_eq!(got.open_ports, vec![8080, 22]);
}

#[test]
fn list_skips_files_that_are_not_records() {
    let a = entry("1.1.1.1", false, vec![]).save().contents;
    let b = entry("2.2.2.2", true, vec![1]).save().contents;
    let got = Entry::list(vec![a, "junk".to_string(), b, String::new()]);
    let ips: Vec<&str> = got.iter().map(|e| e.ip.as_str()).collect();
    assert_eq!(ips, vec!["1.1.1.1", "2.2.2.2"]);
    assert!(Entry::list(vec![]).is_empty());
}

#[test]
fn issue_picks_first_free_entry_with_required_ports() {
    let entries = vec![entry("a", true, vec![22]), entry("b", false, vec![22, 80])];
    let got = issue(&vec![22], &entries).unwrap();
    assert_eq!(got.ip, "b");
    assert_eq!(got.open_ports, vec![22, 80]);
}

#[test]
fn issue_without_required_ports_takes_first_free() {
    let entries = vec![entry("a", true, vec![]), entry("b", false, vec![]), entry("c", false, vec![])];
    assert_eq!(issue(&vec![], &entries).unwrap().ip, "b");
    assert!(issue(&vec![443], &entries).is_none());
    assert!(issue(&vec![], &vec![entry("x", true, vec![])]).is_none());
}
