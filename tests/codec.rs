use ip_manager::entry::Entry;
use ip_manager::path::{record_file_name, record_id};

fn entry(ip: &str, domain: Option<&str>, using: bool, ports: Vec<u32>, description: Option<&str>) -> Entry {
    Entry {
        ip: ip.to_string(),
        domain: domain.map(|s| s.to_string()),
        using,
        open_ports: ports,
        description: description.map(|s| s.to_string()),
    }
}

fn assert_same(a: &Entry, b: &Entry) {
    assert_eq!(a.ip, b.ip);
    assert_eq!(a.domain, b.domain);
    assert_eq!(a.using, b.using);
    assert_eq!(a.open_ports, b.open_ports);
    assert_eq!(a.description, b.description);
}

#[test]
fn encode_writes_pretty_record() {
    let e = entry("10.0.0.1", Some("web"), true, vec![80, 443], None);
    assert_eq!(
        e.encode(),
        "ip = '10.0.0.1'\ndomain = 'web'\nusing = true\nopen_ports = [\n    80,\n    443,\n]\n"
    );
}

#[test]
fn encode_short_port_lists_on_one_line() {
    let none = entry("1.2.3.4", None, false, vec![], None);
    assert_eq!(none.encode(), "ip = '1.2.3.4'\nusing = false\nopen_ports = []\n");
    let one = entry("1.2.3.4", None, false, vec![22], Some("db"));
    assert_eq!(
        one.encode(),
        "ip = '1.2.3.4'\nusing = false\nopen_ports = [22]\ndescription = 'db'\n"
    );
}

#[test]
fn encode_escapes_where_single_quotes_cannot_hold_the_text() {
    let e = entry("1.1.1.1", Some("it's"), false, vec![], Some("a\"b\\c\nd\u{1}"));
    assert_eq!(
        e.encode(),
        "ip = '1.1.1.1'\ndomain = '''it's'''\nusing = false\nopen_ports = []\ndescription = \"\"\"\na\\\"b\\\\c\nd\\u0001\"\"\"\n"
    );
    let e = entry("1.1.1.1", None, false, vec![], Some("two\nlines"));
    assert_eq!(
        e.encode(),
        "ip = '1.1.1.1'\nusing = false\nopen_ports = []\ndescription = '''\ntwo\nlines'''\n"
    );
}

#[test]
fn round_trip_keeps_every_field() {
    let cases = vec![
        entry("10.0.0.1", Some("web"), true, vec![80, 443], None),
        entry("10.0.0.2", None, false, vec![], None),
        entry("10.0.0.3", None, false, vec![4294967295], Some("")),
        entry("10.0.0.4", Some(""), true, vec![0, 1, 2, 3], Some("tab\there 'quoted' \"d\" \\ \r\u{8}\u{c}\u{7f}")),
        entry("", Some("한글 도메인"), false, vec![22, 22], Some("multi\nline")),
    ];
    for e in cases {
        let text = e.encode();
        let back = Entry::decode(&text).unwrap();
        assert_same(&back, &e);
    }
}

#[test]
fn round_trip_keeps_absent_apart_from_empty() {
    let absent = entry("9.9.9.9", None, false, vec![], None);
    let empty = entry("9.9.9.9", Some(""), false, vec![], Some(""));
    assert_ne!(absent.encode(), empty.encode());
    let a = Entry::decode(&absent.encode()).unwrap();
    let b = Entry::decode(&empty.encode()).unwrap();
    assert_eq!(a.domain, None);
    assert_eq!(a.description, None);
    assert_eq!(b.domain, Some(String::new()));
    assert_eq!(b.description, Some(String::new()));
}

#[test]
fn records_are_valid_toml_with_the_same_values() {
    let e = entry("10.0.0.9", Some("it's \"x\""), true, vec![1, 65535], Some("two\nlines"));
    let v: toml::Value = toml::from_str(&e.encode()).unwrap();
    assert_eq!(v["ip"].as_str(), Some("10.0.0.9"));
    assert_eq!(v["domain"].as_str(), Some("it's \"x\""));
    assert_eq!(v["using"].as_bool(), Some(true));
    assert_eq!(v["open_ports"].as_array().map(|a| a.len()), Some(2));
    assert_eq!(v["open_ports"][1].as_integer(), Some(65535));
    assert_eq!(v["description"].as_str(), Some("two\nlines"));
    assert!(v.get("missing").is_none());
}

#[test]
fn decode_rejects_malformed_records() {
    assert!(Entry::decode("").is_err());
    assert!(Entry::decode("ip = '1.1.1.1'\nusing = maybe\nopen_ports = []\n").is_err());
    assert!(Entry::decode("ip = '1.1.1.1'\nusing = false\nopen_ports = [x]\n").is_err());
    assert!(Entry::decode("ip = '1.1.1.1'\nip = '2.2.2.2'\nusing = false\nopen_ports = []\n").is_err());
    assert!(Entry::decode("ip = '1.1.1.1'\nusing = 'yes'\nopen_ports = []\n").is_err());
    assert!(Entry::decode("using = false\nopen_ports = []\n").is_err());
    assert!(Entry::decode("ip = '1.1.1.1' using = false\nopen_ports = []\n").is_err());
    assert!(Entry::decode("ip = '1.1.1.1\nusing = false\nopen_ports = []\n").is_err());
    assert!(Entry::decode("ip = '1.1.1.1'\nusing = false\nopen_ports = [1,,2]\n").is_err());
    assert!(Entry::decode("ip = '1.1.1.1'\nusing = false\nopen_ports = [4294967296]\n").is_err());
    assert!(Entry::decode("garbage\n").is_err());
}

fn toml_line(key: &str, value: &str) -> String {
    let mut t = toml::map::Map::new();
    t.insert(key.to_string(), toml::Value::String(value.to_string()));
    toml::to_string_pretty(&toml::Value::Table(t)).unwrap()
}

#[test]
fn strings_are_written_as_toml_writes_them() {
    let samples = [
        "plain",
        "",
        "it's",
        "two\nlines",
        "it's\ntwo",
        "ends'",
        "a'''b",
        "tab\there",
        "ctrl\u{1}",
        "quote\"d",
        "back\\slash",
        "cr\r\nlf",
        "한글",
    ];
    for s in samples.iter() {
        let e = entry(s, None, false, vec![], None);
        assert!(e.encode().starts_with(&toml_line("ip", s)), "{:?}", s);
    }
}

#[test]
fn decode_reads_what_toml_writes() {
    let mut t = toml::map::Map::new();
    t.insert("ip".to_string(), toml::Value::String("10.0.0.8".to_string()));
    t.insert("domain".to_string(), toml::Value::String("it's mine".to_string()));
    t.insert("using".to_string(), toml::Value::Boolean(true));
    t.insert(
        "open_ports".to_string(),
        toml::Value::Array(vec![toml::Value::Integer(22), toml::Value::Integer(80), toml::Value::Integer(443)]),
    );
    t.insert("description".to_string(), toml::Value::String("line one\nline 'two'\n".to_string()));
    let text = toml::to_string_pretty(&toml::Value::Table(t)).unwrap();
    let e = Entry::decode(&text).unwrap();
    assert_eq!(e.ip, "10.0.0.8");
    assert_eq!(e.domain, Some("it's mine".to_string()));
    assert!(e.using);
    assert_eq!(e.open_ports, vec![22, 80, 443]);
    assert_eq!(e.description, Some("line one\nline 'two'\n".to_string()));
}

#[test]
fn decode_reads_plain_toml_variations() {
    let text = "# inventory record\n\nusing=false   # not yet\r\nip = \"10.0.0.9\"\nopen_ports = [ 22, +80,\n  443 , ]\ndescription = \"\"\"\nmulti \\u00e9\\U0001F600\nline\"\"\"\nextra = 'ignored'";
    let e = Entry::decode(text).unwrap();
    assert_eq!(e.ip, "10.0.0.9");
    assert!(!e.using);
    assert_eq!(e.open_ports, vec![22, 80, 443]);
    assert_eq!(e.domain, None);
    assert_eq!(e.description, Some("multi \u{e9}\u{1F600}\nline".to_string()));
}

#[test]
fn decode_reads_a_hand_written_record() {
    let e = Entry::decode("ip = '10.1.1.1'\nusing = true\nopen_ports = [8080]\ndescription = 'cache'\n").unwrap();
    assert_eq!(e.ip, "10.1.1.1");
    assert_eq!(e.domain, None);
    assert!(e.using);
    assert_eq!(e.open_ports, vec![8080]);
    assert_eq!(e.description, Some("cache".to_string()));
}

#[test]
fn record_id_replaces_dots() {
    assert_eq!(record_id("10.0.0.1"), "10-0-0-1");
    assert_eq!(record_id(""), "");
    assert_eq!(record_file_name("192.168.0.10"), "192-168-0-10.toml");
}

#[test]
fn record_ids_of_distinct_addresses_differ() {
    let ips = ["10.0.0.1", "10.0.0.10", "10.0.01.0", "1.0.0.1", "100.0.0.1"];
    for a in ips.iter() {
        for b in ips.iter() {
            if a != b {
                assert_ne!(record_id(a), record_id(b));
                assert_ne!(record_file_name(a), record_file_name(b));
            }
        }
    }
}
