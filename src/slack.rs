//! Requests from the chat platform and what the service decides to do for them.
//!
//! Decoding the request envelopes, reading and writing record files, and calling
//! the platform back are left to the caller: these functions take the decoded
//! values and say what to do next.

use vstd::prelude::*;
use crate::entry::opt_view;
use crate::edit::given_values;
use crate::entry::copy_opt;
use crate::number::{parse_usize, parse_usize_spec};
use crate::settings::Settings;
use crate::text::{chars_of, same_text, string_of, slice_chars};

verus! {

/// A slash command.
pub struct Request {
    pub token: String,
    pub team_id: String,
    pub team_domain: String,
    pub channel_id: String,
    pub channel_name: String,
    pub user_id: String,
    pub user_name: String,
    pub text: String,
    pub response_url: String,
    pub trigger_id: String,
}

/// A channel of the chat platform.
pub struct Channel {
    pub id: String,
    pub name: String,
}

/// A button pressed in a message.
pub struct Action {
    pub name: String,
    pub action_type: String,
    pub value: String,
}

/// A press of a button in an interactive message.
pub struct Interactive {
    pub actions: Vec<Action>,
    pub callback_id: String,
    pub channel: Channel,
    pub message_ts: String,
    pub token: String,
    pub response_url: String,
    pub trigger_id: String,
}

/// A submitted dialog: its fields by name, in the order given, each maybe empty.
pub struct Dialog {
    pub submission: Vec<(String, Option<String>)>,
    pub callback_id: String,
    pub token: String,
    pub trigger_id: String,
}

/// What the platform posts back to the service.
pub enum Submission {
    Interactive(Interactive),
    Dialog(Dialog),
}

/// A reply of the service.
pub enum Response {
    Unimplemented,
    Unauthorized,
    Empty,
    Json(String),
    Error,
}

/// A match of a search: the address, and the field that matched.
pub struct SearchResult {
    pub ip: String,
    pub element: String,
}

/// What a button of an entry's message asks for.
#[derive(Debug)]
pub enum IpCommand {
    EditDomain,
    ToggleUsing,
    EditPort(String),
    AddPort,
    EditDescription,
    Refresh,
    Delete,
    Unknown,
}

/// The change that a submitted dialog makes to an entry.
#[derive(Debug)]
pub enum DialogEdit {
    Domain(Option<String>),
    Description(Option<String>),
    Port(String, Option<String>),
    AddPorts(Vec<Option<String>>),
    Nothing,
}

/// What to do for a submission.
#[derive(Debug)]
pub enum Step {
    /// Fetch the entry of the address and carry out the command on it.
    Ip(String, IpCommand),
    /// Show the given page of all entries.
    ListPage(usize),
    /// Show the given page of the entries that the query matches.
    QueryPage(String, usize),
    /// Create the entry of the address.
    Create(String),
    /// Tell that the creation was cancelled.
    Cancelled,
    /// Fetch the entry of the address, change it and save it.
    Edit(String, DialogEdit),
    Unimplemented,
    Error,
}

/// What to do for a slash command.
#[derive(Debug)]
pub enum Command {
    Unauthorized,
    /// Show the first page of all entries.
    ListAll,
    /// Show the entry of the address, or offer to create it.
    Lookup(String),
    /// Show the first page of the entries that the text matches.
    Search(String),
}

/// `s[from..j]` holds no `-`, and `j` is the end of `s` or a `-`.
pub open spec fn field_end(s: Seq<char>, from: int, j: int) -> bool {
    &&& 0 <= from <= j <= s.len()
    &&& forall|k: int| from <= k < j ==> #[trigger] s[k] != '-'
    &&& (j == s.len() || s[j] == '-')
}

/// Whether `s` holds a `-`.
pub open spec fn has_dash(s: Seq<char>) -> bool {
    exists|k: int| 0 <= k < s.len() && s[k] == '-'
}

/// The part of a callback id before its first `-`.
pub open spec fn callback_kind(s: Seq<char>) -> Seq<char> {
    s.subrange(0, choose|i: int| field_end(s, 0, i))
}

/// The part of a callback id after its first `-`, up to the next `-`.
pub open spec fn callback_arg(s: Seq<char>) -> Seq<char> {
    let i = choose|i: int| field_end(s, 0, i);
    s.subrange(i + 1, choose|j: int| #[trigger] field_end(s, i + 1, j))
}

/// A field has one end.
proof fn lemma_field_end_unique(s: Seq<char>, from: int, a: int, b: int)
    requires
        field_end(s, from, a),
        field_end(s, from, b),
    ensures
        a == b,
{
    if a < b {
        assert(s[a] != '-');
    } else if b < a {
        assert(s[b] != '-');
    }
}

/// The end of the field of `s` that starts at `from`.
fn field_end_at(s: &Vec<char>, from: usize) -> (r: usize)
    requires
        from <= s.len(),
    ensures
        field_end(s@, from as int, r as int),
{
    let mut j = from;
    while j < s.len() && s[j] != '-'
        invariant
            from <= j <= s.len(),
            forall|k: int| from <= k < j ==> #[trigger] s@[k] != '-',
        decreases s.len() - j,
    {
        j = j + 1;
    }
    j
}

/// The parts of a callback id around its first `-`: the kind of the callback, and
/// its argument up to the next `-`. `None` where the id holds no `-`.
pub fn split_callback(id: &str) -> (r: Option<(String, String)>)
    ensures
        has_dash(id@) ==> (r matches Some((a, b)) && a@ == callback_kind(id@) && b@ == callback_arg(
            id@,
        )),
        !has_dash(id@) ==> r is None,
{
    let s = chars_of(id);
    let i = field_end_at(&s, 0);
    if i == s.len() {
        assert(!has_dash(id@)) by {
            if has_dash(id@) {
                let k = choose|k: int| 0 <= k < s@.len() && s@[k] == '-';
                assert(s@[k] != '-');
            }
        }
        return None;
    }
    let j = field_end_at(&s, i + 1);
    proof {
        let ci = choose|x: int| field_end(id@, 0, x);
        lemma_field_end_unique(id@, 0, ci, i as int);
        let cj = choose|x: int| #[trigger] field_end(id@, ci + 1, x);
        lemma_field_end_unique(id@, i + 1, cj, j as int);
    }
    let a = slice_chars(&s, 0, i);
    let b = slice_chars(&s, i + 1, j);
    Some((string_of(&a), string_of(&b)))
}

/// The command that a button asks for, by its name.
pub open spec fn command_ok(a: Action, c: IpCommand) -> bool {
    let n = a.name@;
    if n == "edit_domain"@ {
        c is EditDomain
    } else if n == "toggle_using"@ {
        c is ToggleUsing
    } else if n == "edit_port"@ {
        c matches IpCommand::EditPort(v) && v@ == a.value@
    } else if n == "add_port"@ {
        c is AddPort
    } else if n == "edit_description"@ {
        c is EditDescription
    } else if n == "refresh"@ {
        c is Refresh
    } else if n == "delete_entry"@ {
        c is Delete
    } else {
        c is Unknown
    }
}

/// The command of a button of an entry's message, by the button's name.
pub fn ip_command(action: &Action) -> (r: IpCommand)
    ensures
        command_ok(*action, r),
{
    proof {
        reveal_strlit("edit_domain");
        reveal_strlit("toggle_using");
        reveal_strlit("edit_port");
        reveal_strlit("add_port");
        reveal_strlit("edit_description");
        reveal_strlit("refresh");
        reveal_strlit("delete_entry");
    }
    let n = action.name.as_str();
    if same_text(n, "edit_domain") {
        IpCommand::EditDomain
    } else if same_text(n, "toggle_using") {
        IpCommand::ToggleUsing
    } else if same_text(n, "edit_port") {
        IpCommand::EditPort(action.value.clone())
    } else if same_text(n, "add_port") {
        IpCommand::AddPort
    } else if same_text(n, "edit_description") {
        IpCommand::EditDescription
    } else if same_text(n, "refresh") {
        IpCommand::Refresh
    } else if same_text(n, "delete_entry") {
        IpCommand::Delete
    } else {
        IpCommand::Unknown
    }
}

/// The page after the one that a button's value names.
pub open spec fn next_page(value: Seq<char>) -> Option<usize> {
    match parse_usize_spec(value) {
        Some(n) => if n < usize::MAX {
            Some((n + 1) as usize)
        } else {
            None
        },
        None => None,
    }
}

/// The page after the one that `value` names.
fn next_page_of(value: &String) -> (r: Option<usize>)
    ensures
        r == next_page(value@),
{
    let cs = chars_of(value.as_str());
    match parse_usize(&cs) {
        Some(n) => if n < usize::MAX {
            Some((n + 1) as usize)
        } else {
            None
        },
        None => None,
    }
}

/// `i` is the first field of a dialog named `key`.
pub open spec fn first_field_at(fields: Seq<(String, Option<String>)>, key: Seq<char>, i: int) -> bool {
    &&& 0 <= i < fields.len()
    &&& fields[i].0@ == key
    &&& forall|j: int| 0 <= j < i ==> (#[trigger] fields[j]).0@ != key
}

/// The value of the first field named `key`, and whether there is one.
fn field_value(fields: &Vec<(String, Option<String>)>, key: &str) -> (r: Option<Option<String>>)
    ensures
        r matches Some(v) ==> exists|i: int|
            first_field_at(fields@, key@, i) && opt_view(v) == opt_view(fields@[i].1),
        r is None ==> forall|i: int| 0 <= i < fields.len() ==> (#[trigger] fields@[i]).0@ != key@,
{
    let mut i: usize = 0;
    while i < fields.len()
        invariant
            i <= fields.len(),
            forall|j: int| 0 <= j < i ==> (#[trigger] fields@[j]).0@ != key@,
        decreases fields.len() - i,
    {
        if same_text(fields[i].0.as_str(), key) {
            let v = copy_opt(&fields[i].1);
            assert(first_field_at(fields@, key@, i as int));
            return Some(v);
        }
        i = i + 1;
    }
    None
}

/// The values of all fields, in order.
pub open spec fn field_values(fields: Seq<(String, Option<String>)>) -> Seq<Option<Seq<char>>> {
    fields.map_values(|f: (String, Option<String>)| opt_view(f.1))
}

/// What optional strings hold.
pub open spec fn opt_views(v: Seq<Option<String>>) -> Seq<Option<Seq<char>>> {
    v.map_values(|o: Option<String>| opt_view(o))
}

/// Copies of the values of all fields.
fn all_values(fields: &Vec<(String, Option<String>)>) -> (r: Vec<Option<String>>)
    ensures
        opt_views(r@) == field_values(fields@),
{
    let mut out: Vec<Option<String>> = Vec::new();
    let mut i: usize = 0;
    while i < fields.len()
        invariant
            i <= fields.len(),
            opt_views(out@) == field_values(fields@.take(i as int)),
        decreases fields.len() - i,
    {
        let v = copy_opt(&fields[i].1);
        let ghost before = out@;
        out.push(v);
        assert(opt_views(out@) =~= opt_views(before).push(opt_view(v)));
        assert(fields@.take(i + 1) =~= fields@.take(i as int).push(fields@[i as int]));
        i = i + 1;
        assert(opt_views(out@) =~= field_values(fields@.take(i as int)));
    }
    assert(fields@.take(fields.len() as int) =~= fields@);
    out
}

/// What to do for a press of a button.
pub open spec fn interactive_step_ok(i: Interactive, r: Step) -> bool {
    let cb = i.callback_id@;
    if !has_dash(cb) {
        r is Error
    } else {
        let kind = callback_kind(cb);
        let arg = callback_arg(cb);
        if kind == "ip"@ || kind == "list"@ || kind == "query"@ || kind == "create_new"@ {
            if i.actions.len() == 0 {
                r is Error
            } else {
                let a = i.actions@[0];
                if kind == "ip"@ {
                    r matches Step::Ip(ip, c) && ip@ == arg && command_ok(a, c)
                } else if kind == "list"@ {
                    match next_page(a.value@) {
                        Some(p) => r == Step::ListPage(p),
                        None => r is Error,
                    }
                } else if kind == "query"@ {
                    match next_page(a.value@) {
                        Some(p) => r matches Step::QueryPage(q, n) && q@ == arg && n == p,
                        None => r is Error,
                    }
                } else if a.value@ == "create_new_entry"@ {
                    r matches Step::Create(ip) && ip@ == arg
                } else {
                    r is Cancelled
                }
            }
        } else {
            r is Unimplemented
        }
    }
}

/// The change of a dialog that sets the field `key` of the entry of `ip`: an error
/// where no field of the dialog is named `key`.
pub open spec fn field_edit_ok(f: Seq<(String, Option<String>)>, key: Seq<char>, ip: Seq<char>, r: Step) -> bool {
    if forall|i: int| 0 <= i < f.len() ==> (#[trigger] f[i]).0@ != key {
        r is Error
    } else {
        exists|i: int|
            #[trigger] first_field_at(f, key, i) && match r {
                Step::Edit(x, DialogEdit::Domain(v)) => key == "domain"@ && x@ == ip && opt_view(v)
                    == opt_view(f[i].1),
                Step::Edit(x, DialogEdit::Description(v)) => key == "description"@ && x@ == ip
                    && opt_view(v) == opt_view(f[i].1),
                _ => false,
            }
    }
}

/// What to do for a submitted dialog.
pub open spec fn dialog_step_ok(d: Dialog, r: Step) -> bool {
    let cb = d.callback_id@;
    let f = d.submission@;
    if !has_dash(cb) {
        r is Error
    } else {
        let kind = callback_kind(cb);
        let ip = callback_arg(cb);
        if kind == "edit_domain"@ {
            field_edit_ok(f, "domain"@, ip, r)
        } else if kind == "edit_description"@ {
            field_edit_ok(f, "description"@, ip, r)
        } else if kind == "edit_port"@ {
            if f.len() == 0 {
                r is Error
            } else {
                r matches Step::Edit(x, DialogEdit::Port(k, v)) && x@ == ip && k@ == f[0].0@
                    && opt_view(v) == opt_view(f[0].1)
            }
        } else if kind == "add_port"@ {
            r matches Step::Edit(x, DialogEdit::AddPorts(v)) && x@ == ip && opt_views(v@)
                == field_values(f)
        } else {
            r matches Step::Edit(x, DialogEdit::Nothing) && x@ == ip
        }
    }
}

/// What to do for a submitted dialog.
fn dialog_step(d: &Dialog) -> (r: Step)
    ensures
        dialog_step_ok(*d, r),
{
    proof {
        reveal_strlit("edit_domain");
        reveal_strlit("edit_description");
        reveal_strlit("edit_port");
        reveal_strlit("add_port");
        reveal_strlit("domain");
        reveal_strlit("description");
    }
    let (kind, ip) = match split_callback(d.callback_id.as_str()) {
        Some(p) => p,
        None => {
            return Step::Error;
        },
    };
    let k = kind.as_str();
    if same_text(k, "edit_domain") {
        match field_value(&d.submission, "domain") {
            Some(v) => {
                proof {
                    let i = choose|i: int|
                        first_field_at(d.submission@, "domain"@, i) && opt_view(v)
                            == opt_view(d.submission@[i].1);
                    assert(first_field_at(d.submission@, "domain"@, i));
                }
                Step::Edit(ip, DialogEdit::Domain(v))
            },
            None => Step::Error,
        }
    } else if same_text(k, "edit_description") {
        match field_value(&d.submission, "description") {
            Some(v) => {
                proof {
                    let i = choose|i: int|
                        first_field_at(d.submission@, "description"@, i) && opt_view(v)
                            == opt_view(d.submission@[i].1);
                    assert(first_field_at(d.submission@, "description"@, i));
                }
                Step::Edit(ip, DialogEdit::Description(v))
            },
            None => Step::Error,
        }
    } else if same_text(k, "edit_port") {
        if d.submission.len() == 0 {
            Step::Error
        } else {
            let f = &d.submission[0];
            Step::Edit(ip, DialogEdit::Port(f.0.clone(), copy_opt(&f.1)))
        }
    } else if same_text(k, "add_port") {
        Step::Edit(ip, DialogEdit::AddPorts(all_values(&d.submission)))
    } else {
        Step::Edit(ip, DialogEdit::Nothing)
    }
}

/// What to do for a submission from the platform.
pub fn handle_submission(submission: &Submission) -> (r: Step)
    ensures
        submission matches Submission::Interactive(i) ==> interactive_step_ok(*i, r),
        submission matches Submission::Dialog(d) ==> dialog_step_ok(*d, r),
{
    proof {
        reveal_strlit("ip");
        reveal_strlit("list");
        reveal_strlit("query");
        reveal_strlit("create_new");
        reveal_strlit("edit_domain");
        reveal_strlit("edit_description");
        reveal_strlit("edit_port");
        reveal_strlit("add_port");
        reveal_strlit("domain");
        reveal_strlit("description");
    }
    match submission {
        Submission::Interactive(i) => {
            let (kind, arg) = match split_callback(i.callback_id.as_str()) {
                Some(p) => p,
                None => {
                    return Step::Error;
                },
            };
            let k = kind.as_str();
            let known = same_text(k, "ip") || same_text(k, "list") || same_text(k, "query")
                || same_text(k, "create_new");
            if !known {
                return Step::Unimplemented;
            }
            if i.actions.len() == 0 {
                return Step::Error;
            }
            let a = &i.actions[0];
            if same_text(k, "ip") {
                Step::Ip(arg, ip_command(a))
            } else if same_text(k, "list") {
                match next_page_of(&a.value) {
                    Some(p) => Step::ListPage(p),
                    None => Step::Error,
                }
            } else if same_text(k, "query") {
                match next_page_of(&a.value) {
                    Some(p) => Step::QueryPage(arg, p),
                    None => Step::Error,
                }
            } else if same_text(a.value.as_str(), "create_new_entry") {
                Step::Create(arg)
            } else {
                Step::Cancelled
            }
        },
        Submission::Dialog(d) => dialog_step(d),
    }
}

/// Whether a text has the shape of an address: the pattern
/// `^\d{1,3}.\d{1,3}.\d{1,3}.\d{1,3}$` matches it.
pub uninterp spec fn ip_shaped(text: Seq<char>) -> bool;

/// Relies on `regex::Regex::new` and `regex::Regex::is_match`: whether the address
/// pattern matches `text`, which depends on the text alone.
#[verifier::external_body]
fn matches_ip_pattern(text: &str) -> (r: bool)
    ensures
        r == ip_shaped(text@),
{
    match regex::Regex::new("^\\d{1,3}.\\d{1,3}.\\d{1,3}.\\d{1,3}$") {
        Ok(re) => re.is_match(text),
        Err(_) => false,
    }
}

/// What to do for a slash command whose text the address pattern matches where
/// `shaped` holds: refuse a wrong token, list every entry for an empty text, look up
/// a text shaped as an address, and search for any other text.
pub fn decide_slash_command(settings: &Settings, request: &Request, shaped: bool) -> (r: Command)
    ensures
        settings.verification_token@ != request.token@ ==> r is Unauthorized,
        settings.verification_token@ == request.token@ ==> {
            let t = request.text@;
            if t.len() == 0 {
                r is ListAll
            } else if shaped {
                r matches Command::Lookup(ip) && ip@ == t
            } else {
                r matches Command::Search(q) && q@ == t
            }
        },
{
    if !settings.verify(request.token.as_str()) {
        return Command::Unauthorized;
    }
    if request.text.as_str().is_empty() {
        return Command::ListAll;
    }
    if shaped {
        Command::Lookup(request.text.clone())
    } else {
        Command::Search(request.text.clone())
    }
}

/// What to do for a slash command, with the address pattern tried on its text.
pub fn handle_slash_command(settings: &Settings, request: &Request) -> (r: Command)
    ensures
        settings.verification_token@ != request.token@ ==> r is Unauthorized,
        settings.verification_token@ == request.token@ ==> {
            let t = request.text@;
            if t.len() == 0 {
                r is ListAll
            } else if ip_shaped(t) {
                r matches Command::Lookup(ip) && ip@ == t
            } else {
                r matches Command::Search(q) && q@ == t
            }
        },
{
    let shaped = matches_ip_pattern(request.text.as_str());
    decide_slash_command(settings, request, shaped)
}

} // verus!
