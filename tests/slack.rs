use ip_manager::entry::Entry;
use ip_manager::message::{generate_cancelled_message, generate_deleted_message, generate_inexist_message};
use ip_manager::settings::Settings;
use ip_manager::slack::{
    decide_slash_command, handle_slash_command, handle_submission, split_callback, Action, Channel, Command, Dialog,
    DialogEdit, Interactive, IpCommand, Request, Step, Submission,
};

fn settings() -> Settings {
    Settings::new("secret".to_string(), "api".to_string(), "/data".to_string(), None)
}

fn request(token: &str, text: &str) -> Request {
    Request {
        token: token.to_string(),
        team_id: String::new(),
        team_domain: String::new(),
        channel_id: String::new(),
        channel_name: String::new(),
        user_id: String::new(),
        user_name: String::new(),
        text: text.to_string(),
        response_url: String::new(),
        trigger_id: String::new(),
    }
}

fn press(callback: &str, name: &str, value: &str) -> Submission {
    Submission::Interactive(Interactive {
        actions: vec![Action { name: name.to_string(), action_type: "button".to_string(), value: value.to_string() }],
        callback_id: callback.to_string(),
        channel: Channel { id: "C1".to_string(), name: "general".to_string() },
        message_ts: String::new(),
        token: String::new(),
        response_url: String::new(),
        trigger_id: String::new(),
    })
}

fn dialog(callback: &str, fields: Vec<(&str, Option<&str>)>) -> Submission {
    Submission::Dialog(Dialog {
        submission: fields.into_iter().map(|(k, v)| (k.to_string(), v.map(|s| s.to_string()))).collect(),
        callback_id: callback.to_string(),
        token: String::new(),
        trigger_id: String::new(),
    })
}

#[test]
fn settings_accessors() {
    let s = Settings::new("v".to_string(), "t".to_string(), "/d".to_string(), Some("http://f".to_string()));
    assert!(s.verify("v"));
    assert!(!s.verify("w"));
    assert!(!s.verify(""));
    assert_eq!(s.token(), "t");
    assert_eq!(s.data_path(), "/d");
    assert_eq!(s.fallback_url(), Some("http://f"));
    assert_eq!(settings().fallback_url(), None);
}

#[test]
fn fixed_messages() {
    assert_eq!(generate_cancelled_message(), "{ \"text\": \"취소되었습니다.\" }");
    assert_eq!(generate_deleted_message(), "{ \"text\": \"삭제되었습니다.\" }");
    assert_eq!(generate_inexist_message(), "{ \"text\": \"존재하지 않는 IP 입니다.\" }");
}

#[test]
fn slash_command_checks_token() {
    assert!(matches!(handle_slash_command(&settings(), &request("wrong", "")), Command::Unauthorized));
}

#[test]
fn slash_command_empty_text_lists() {
    assert!(matches!(handle_slash_command(&settings(), &request("secret", "")), Command::ListAll));
}

#[test]
fn slash_command_address_looks_up() {
    match handle_slash_command(&settings(), &request("secret", "10.0.0.1")) {
        Command::Lookup(ip) => assert_eq!(ip, "10.0.0.1"),
        other => panic!("{:?}", other),
    }
    match handle_slash_command(&settings(), &request("secret", "1x2x3x4")) {
        Command::Lookup(ip) => assert_eq!(ip, "1x2x3x4"),
        other => panic!("{:?}", other),
    }
}

#[test]
fn slash_command_other_text_searches() {
    match handle_slash_command(&settings(), &request("secret", "web 443")) {
        Command::Search(q) => assert_eq!(q, "web 443"),
        other => panic!("{:?}", other),
    }
    match handle_slash_command(&settings(), &request("secret", "1000.0.0.1")) {
        Command::Search(q) => assert_eq!(q, "1000.0.0.1"),
        other => panic!("{:?}", other),
    }
}

#[test]
fn split_callback_parts() {
    assert_eq!(split_callback("ip-10.0.0.1"), Some(("ip".to_string(), "10.0.0.1".to_string())));
    assert_eq!(split_callback("query-a-b"), Some(("query".to_string(), "a".to_string())));
    assert_eq!(split_callback("list-"), Some(("list".to_string(), String::new())));
    assert_eq!(split_callback("nodash"), None);
}

#[test]
fn submission_ip_commands() {
    match handle_submission(&press("ip-10.0.0.1", "toggle_using", "x")) {
        Step::Ip(ip, IpCommand::ToggleUsing) => assert_eq!(ip, "10.0.0.1"),
        other => panic!("{:?}", other),
    }
    match handle_submission(&press("ip-10.0.0.1", "edit_port", "22")) {
        Step::Ip(_, IpCommand::EditPort(p)) => assert_eq!(p, "22"),
        other => panic!("{:?}", other),
    }
    assert!(matches!(handle_submission(&press("ip-1.1.1.1", "delete_entry", "")), Step::Ip(_, IpCommand::Delete)));
    assert!(matches!(handle_submission(&press("ip-1.1.1.1", "refresh", "")), Step::Ip(_, IpCommand::Refresh)));
    assert!(matches!(handle_submission(&press("ip-1.1.1.1", "edit_domain", "")), Step::Ip(_, IpCommand::EditDomain)));
    assert!(matches!(handle_submission(&press("ip-1.1.1.1", "add_port", "")), Step::Ip(_, IpCommand::AddPort)));
    assert!(matches!(
        handle_submission(&press("ip-1.1.1.1", "edit_description", "")),
        Step::Ip(_, IpCommand::EditDescription)
    ));
    assert!(matches!(handle_submission(&press("ip-1.1.1.1", "dance", "")), Step::Ip(_, IpCommand::Unknown)));
}

#[test]
fn submission_pages() {
    assert!(matches!(handle_submission(&press("list-list", "next", "0")), Step::ListPage(1)));
    match handle_submission(&press("query-web", "next", "2")) {
        Step::QueryPage(q, 3) => assert_eq!(q, "web"),
        other => panic!("{:?}", other),
    }
    assert!(matches!(handle_submission(&press("list-list", "next", "x")), Step::Error));
}

#[test]
fn submission_create_or_cancel() {
    match handle_submission(&press("create_new-10.0.0.7", "create", "create_new_entry")) {
        Step::Create(ip) => assert_eq!(ip, "10.0.0.7"),
        other => panic!("{:?}", other),
    }
    assert!(matches!(handle_submission(&press("create_new-10.0.0.7", "cancel", "cancel")), Step::Cancelled));
}

#[test]
fn submission_unknown_and_malformed() {
    assert!(matches!(handle_submission(&press("other-x", "a", "b")), Step::Unimplemented));
    assert!(matches!(handle_submission(&press("nodash", "a", "b")), Step::Error));
    let empty = Submission::Interactive(Interactive {
        actions: vec![],
        callback_id: "ip-1.1.1.1".to_string(),
        channel: Channel { id: String::new(), name: String::new() },
        message_ts: String::new(),
        token: String::new(),
        response_url: String::new(),
        trigger_id: String::new(),
    });
    assert!(matches!(handle_submission(&empty), Step::Error));
}

#[test]
fn dialog_edits() {
    match handle_submission(&dialog("edit_domain-10.0.0.1", vec![("domain", Some("web"))])) {
        Step::Edit(ip, DialogEdit::Domain(Some(d))) => {
            assert_eq!(ip, "10.0.0.1");
            assert_eq!(d, "web");
        }
        other => panic!("{:?}", other),
    }
    assert!(matches!(
        handle_submission(&dialog("edit_description-1.1.1.1", vec![("description", None)])),
        Step::Edit(_, DialogEdit::Description(None))
    ));
    assert!(matches!(handle_submission(&dialog("edit_domain-1.1.1.1", vec![("other", None)])), Step::Error));
    match handle_submission(&dialog("edit_port-1.1.1.1", vec![("22", Some("2222"))])) {
        Step::Edit(_, DialogEdit::Port(k, v)) => {
            assert_eq!(k, "22");
            assert_eq!(v, Some("2222".to_string()));
        }
        other => panic!("{:?}", other),
    }
    match handle_submission(&dialog("add_port-1.1.1.1", vec![("p1", Some("80")), ("p2", None)])) {
        Step::Edit(_, DialogEdit::AddPorts(v)) => assert_eq!(v, vec![Some("80".to_string()), None]),
        other => panic!("{:?}", other),
    }
    assert!(matches!(handle_submission(&dialog("what-1.1.1.1", vec![])), Step::Edit(_, DialogEdit::Nothing)));
}

#[test]
fn edit_port_changes_removes_or_rejects() {
    let mut e = Entry { ip: "1.1.1.1".to_string(), domain: None, using: false, open_ports: vec![22, 80, 22], description: None };
    e.edit_port("22", Some("2222")).unwrap();
    assert_eq!(e.open_ports, vec![2222, 80, 22]);
    e.edit_port("80", None).unwrap();
    assert_eq!(e.open_ports, vec![2222, 22]);
    assert!(e.edit_port("22", Some("port")).is_err());
    assert_eq!(e.open_ports, vec![2222, 22]);
    e.edit_port("9", None).unwrap();
    assert_eq!(e.open_ports, vec![2222, 22]);
    assert_eq!(e.port_position("22"), Some(1));
    assert_eq!(e.port_position("022"), None);
}

#[test]
fn add_ports_appends_or_rejects() {
    let mut e = Entry { ip: "1.1.1.1".to_string(), domain: None, using: true, open_ports: vec![1], description: None };
    e.add_ports(&vec![Some("2".to_string()), None, Some("3".to_string())]).unwrap();
    assert_eq!(e.open_ports, vec![1, 2, 3]);
    assert!(e.add_ports(&vec![Some("4".to_string()), Some("4294967296".to_string())]).is_err());
    assert_eq!(e.open_ports, vec![1, 2, 3]);
    e.toggle_using();
    assert!(!e.using);
    e.set_domain(None);
    e.set_description(Some("note".to_string()));
    assert_eq!(e.description, Some("note".to_string()));
}

#[test]
fn slash_command_decision_from_pattern_result() {
    match decide_slash_command(&settings(), &request("secret", "anything"), true) {
        Command::Lookup(ip) => assert_eq!(ip, "anything"),
        other => panic!("{:?}", other),
    }
    match decide_slash_command(&settings(), &request("secret", "10.0.0.1"), false) {
        Command::Search(q) => assert_eq!(q, "10.0.0.1"),
        other => panic!("{:?}", other),
    }
    assert!(matches!(decide_slash_command(&settings(), &request("secret", ""), true), Command::ListAll));
    assert!(matches!(decide_slash_command(&settings(), &request("nope", "x"), true), Command::Unauthorized));
}

#[test]
fn submission_pages_beyond_u32() {
    match handle_submission(&press("list-list", "next", "4294967295")) {
        Step::ListPage(p) => assert_eq!(p as u64, 4294967296),
        other => panic!("{:?}", other),
    }
    let max = usize::MAX.to_string();
    assert!(matches!(handle_submission(&press("list-list", "next", &max)), Step::Error));
    let before_max = (usize::MAX - 1).to_string();
    assert!(matches!(handle_submission(&press("list-list", "next", &before_max)), Step::ListPage(usize::MAX)));
}
