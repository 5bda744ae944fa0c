use ip_manager::entry::Entry;
use ip_manager::page::{paginate, PAGE_SIZE};

fn entry(ip: &str, domain: Option<&str>, using: bool, ports: Vec<u32>, description: Option<&str>) -> Entry {
    Entry {
        ip: ip.to_string(),
        domain: domain.map(|s| s.to_string()),
        using,
        open_ports: ports,
        description: description.map(|s| s.to_string()),
    }
}

fn web() -> Entry {
    entry("10.0.0.1", Some("web"), true, vec![80, 443], None)
}

fn ips(v: &[Entry]) -> Vec<String> {
    v.iter().map(|e| e.ip.clone()).collect()
}

#[test]
fn search_matches_port() {
    assert_eq!(ips(&Entry::search("443", vec![web()])), vec!["10.0.0.1"]);
}

#[test]
fn search_matches_domain_substring() {
    assert_eq!(ips(&Entry::search("web", vec![web()])), vec!["10.0.0.1"]);
    assert_eq!(ips(&Entry::search("e", vec![web()])), vec!["10.0.0.1"]);
}

#[test]
fn search_without_match_is_empty() {
    assert!(Entry::search("9.9.9.9", vec![web()]).is_empty());
}

#[test]
fn search_any_token_matches() {
    assert_eq!(ips(&Entry::search("nothing  443", vec![web()])), vec!["10.0.0.1"]);
    assert_eq!(ips(&Entry::search("\tweb\n", vec![web()])), vec!["10.0.0.1"]);
    assert!(Entry::search("   ", vec![web()]).is_empty());
}

#[test]
fn search_marker_tokens_follow_usage() {
    let free = entry("10.0.0.2", None, false, vec![], None);
    assert_eq!(ips(&Entry::search("사용중", vec![web(), free])), vec!["10.0.0.1"]);
    let free = entry("10.0.0.2", None, false, vec![], None);
    assert_eq!(ips(&Entry::search("미사용", vec![web(), free])), vec!["10.0.0.2"]);
}

#[test]
fn search_is_case_sensitive() {
    assert!(Entry::search("WEB", vec![web()]).is_empty());
}

#[test]
fn search_non_numeric_token_never_matches_port_zero() {
    let zero = entry("1.1.1.1", None, true, vec![0], None);
    assert!(Entry::search("abc", vec![zero]).is_empty());
    let zero = entry("1.1.1.1", None, true, vec![0], None);
    assert_eq!(ips(&Entry::search("0", vec![zero])), vec!["1.1.1.1"]);
}

#[test]
fn search_matches_description_and_ip() {
    let e = entry("192.168.1.5", None, false, vec![], Some("backup server"));
    assert_eq!(ips(&Entry::search("backup", vec![e])), vec!["192.168.1.5"]);
    let e = entry("192.168.1.5", None, false, vec![], None);
    assert_eq!(ips(&Entry::search("168.1", vec![e])), vec!["192.168.1.5"]);
}

#[test]
fn search_keeps_input_order() {
    let list = vec![
        entry("3.3.3.3", Some("db"), false, vec![], None),
        entry("1.1.1.1", Some("web"), false, vec![], None),
        entry("2.2.2.2", Some("db2"), false, vec![], None),
        entry("4.4.4.4", None, false, vec![], None),
    ];
    assert_eq!(ips(&Entry::search("db", list)), vec!["3.3.3.3", "2.2.2.2"]);
}

fn ten() -> Vec<Entry> {
    (0..10).map(|i| entry(&format!("10.0.0.{}", i), None, false, vec![], None)).collect()
}

#[test]
fn paginate_first_page_of_ten() {
    let (page, more) = paginate(&ten(), 0, 8);
    assert_eq!(page.len(), 8);
    assert_eq!(page[0].ip, "10.0.0.0");
    assert_eq!(page[7].ip, "10.0.0.7");
    assert!(more);
}

#[test]
fn paginate_second_page_of_ten() {
    let (page, more) = paginate(&ten(), 1, PAGE_SIZE);
    assert_eq!(ips(&page), vec!["10.0.0.8", "10.0.0.9"]);
    assert!(!more);
}

#[test]
fn paginate_beyond_the_end_is_empty() {
    let (page, more) = paginate(&ten(), 5, 8);
    assert!(page.is_empty());
    assert!(!more);
    let (page, more) = paginate(&ten(), usize::MAX, usize::MAX);
    assert!(page.is_empty());
    assert!(!more);
    let (page, more) = paginate(&vec![], 0, 8);
    assert!(page.is_empty());
    assert!(!more);
}

#[test]
fn paginate_exact_fit_has_no_more() {
    let eight: Vec<Entry> = ten().into_iter().take(8).collect();
    let (page, more) = paginate(&eight, 0, 8);
    assert_eq!(page.len(), 8);
    assert!(!more);
}

#[test]
fn search_splits_on_unicode_whitespace() {
    assert_eq!(ips(&Entry::search("web\u{a0}zzz", vec![web()])), vec!["10.0.0.1"]);
    assert_eq!(ips(&Entry::search("zzz\u{3000}443", vec![web()])), vec!["10.0.0.1"]);
    let e = entry("1.1.1.1", None, false, vec![], Some("a\u{a0}b"));
    assert!(Entry::search("\u{a0}", vec![e]).is_empty());
    let e = entry("1.1.1.1", None, false, vec![], Some("a\u{85}\u{b}b"));
    assert!(Entry::search("\u{85}\u{b}", vec![e]).is_empty());
}
