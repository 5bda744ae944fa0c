//! The text form of a record file: a TOML table of the entry's fields, written as
//! `toml::to_string_pretty` writes it. Reading accepts that form and plain variations
//! of it: keys in any order, other spacing, blank lines, comments, unknown keys, and
//! all four string forms with their escapes. It does not take quoted or dotted keys,
//! nor the line-ending backslash of multi-line basic strings.

use vstd::prelude::*;
use crate::text::{push_all, chars_of, string_of};
use crate::entry::{Entry, EntryView};
use crate::number::{decimal, decimal_spec, digits_value, is_digit, all_digits, lemma_decimal_digits};

verus! {

/// A control character, which a string in a record must escape.
pub open spec fn is_control(c: char) -> bool {
    (c as u32) < 0x20 || (c as u32) == 0x7f
}

/// The upper-case hexadecimal digit of a value below sixteen.
pub open spec fn hex_char(n: nat) -> char {
    if n < 10 {
        ((n + 48) as u32) as char
    } else {
        ((n + 55) as u32) as char
    }
}

/// The value of a hexadecimal digit, of either case.
pub open spec fn hex_value(c: char) -> Option<nat> {
    if '0' <= c && c <= '9' {
        Some((c as u32 - 48) as nat)
    } else if 'A' <= c && c <= 'F' {
        Some((c as u32 - 55) as nat)
    } else if 'a' <= c && c <= 'f' {
        Some((c as u32 - 87) as nat)
    } else {
        None
    }
}

/// The character that a two-character escape `\x` stands for.
pub open spec fn short_escape(x: char) -> Option<char> {
    if x == '"' {
        Some('"')
    } else if x == '\\' {
        Some('\\')
    } else if x == 'n' {
        Some('\n')
    } else if x == 'r' {
        Some('\r')
    } else if x == 't' {
        Some('\t')
    } else if x == 'b' {
        Some('\x08')
    } else if x == 'f' {
        Some('\x0C')
    } else {
        None
    }
}

/// How one character is written inside double quotes.
pub open spec fn escape_char(c: char) -> Seq<char> {
    if c == '"' {
        seq!['\\', '"']
    } else if c == '\\' {
        seq!['\\', '\\']
    } else if c == '\n' {
        seq!['\\', 'n']
    } else if c == '\r' {
        seq!['\\', 'r']
    } else if c == '\t' {
        seq!['\\', 't']
    } else if c == '\x08' {
        seq!['\\', 'b']
    } else if c == '\x0C' {
        seq!['\\', 'f']
    } else if is_control(c) {
        seq!['\\', 'u', '0', '0', hex_char((c as u32 / 16) as nat), hex_char((c as u32 % 16) as nat)]
    } else {
        seq![c]
    }
}

/// A string written inside double quotes, each character escaped as needed.
pub open spec fn escape(s: Seq<char>) -> Seq<char>
    decreases s.len(),
{
    if s.len() == 0 {
        Seq::empty()
    } else {
        escape_char(s[0]) + escape(s.skip(1))
    }
}

/// Characters with the same code are the same character.
proof fn lemma_same_code(c: char, d: char)
    requires
        c as u32 == d as u32,
    ensures
        c == d,
{
}

/// A hexadecimal digit reads back as its value.
proof fn lemma_hex_char(n: nat)
    requires
        n < 16,
    ensures
        hex_value(hex_char(n)) == Some(n),
{
    if n < 10 {
        let u = (n + 48) as u32;
        assert((u as char) as u32 == u);
    } else {
        let u = (n + 55) as u32;
        assert((u as char) as u32 == u);
    }
}

/// Escaping distributes over appending one character.
proof fn lemma_escape_push(s: Seq<char>, c: char)
    ensures
        escape(s.push(c)) == escape(s) + escape_char(c),
    decreases s.len(),
{
    if s.len() == 0 {
        assert(s.push(c).skip(1) =~= Seq::<char>::empty());
        assert(escape(Seq::<char>::empty()) == Seq::<char>::empty());
        assert(escape(s.push(c)) =~= escape_char(c));
    } else {
        lemma_escape_push(s.skip(1), c);
        assert(s.push(c).skip(1) =~= s.skip(1).push(c));
        assert(escape(s.push(c)) =~= escape(s) + escape_char(c));
    }
}

/// The hexadecimal digit of `n`, which is below sixteen.
fn hex_of(n: u32) -> (r: char)
    requires
        n < 16,
    ensures
        r == hex_char(n as nat),
{
    if n < 10 {
        ((n as u8) + 48) as char
    } else {
        ((n as u8) + 55) as char
    }
}

/// The escaped form of one character.
fn escape_one(c: char) -> (r: Vec<char>)
    ensures
        r@ == escape_char(c),
{
    if c == '"' {
        vec!['\\', '"']
    } else if c == '\\' {
        vec!['\\', '\\']
    } else if c == '\n' {
        vec!['\\', 'n']
    } else if c == '\r' {
        vec!['\\', 'r']
    } else if c == '\t' {
        vec!['\\', 't']
    } else if c == '\x08' {
        vec!['\\', 'b']
    } else if c == '\x0C' {
        vec!['\\', 'f']
    } else if (c as u32) < 0x20 || (c as u32) == 0x7f {
        let code = c as u32;
        vec!['\\', 'u', '0', '0', hex_of(code / 16), hex_of(code % 16)]
    } else {
        vec![c]
    }
}

/// A character that a literal string holds as it is: no control character but tab
/// and line break.
pub open spec fn literal_char(c: char) -> bool {
    !is_control(c) || c == '\t' || c == '\n'
}

/// Whether `s` holds `c`.
pub open spec fn has_char(s: Seq<char>, c: char) -> bool {
    exists|i: int| 0 <= i < s.len() && s[i] == c
}

/// Whether `s` can be written as a literal string, between single quotes: it holds
/// no control character but tab and line break, no three quotes in a row, and does
/// not end with a quote.
pub open spec fn literal_ok(s: Seq<char>) -> bool {
    &&& forall|i: int| 0 <= i < s.len() ==> literal_char(#[trigger] s[i])
    &&& forall|i: int|
        0 <= i && i + 2 < s.len() ==> !(#[trigger] s[i] == '\'' && s[i + 1] == '\'' && s[i + 2]
            == '\'')
    &&& !(s.len() > 0 && s.last() == '\'')
}

/// How one character is written inside a multi-line basic string.
pub open spec fn escape_char_ml(c: char) -> Seq<char> {
    if c == '\n' {
        seq!['\n']
    } else {
        escape_char(c)
    }
}

/// A string written inside a multi-line basic string.
pub open spec fn escape_ml(s: Seq<char>) -> Seq<char>
    decreases s.len(),
{
    if s.len() == 0 {
        Seq::empty()
    } else {
        escape_char_ml(s[0]) + escape_ml(s.skip(1))
    }
}

/// `c` three times.
pub open spec fn three(c: char) -> Seq<char> {
    seq![c, c, c]
}

/// A string as a record writes it, in the form that toml's pretty printer picks:
/// a literal string where one can hold it (multi-line where the string holds a line
/// break, between triple quotes where it holds a quote), else a basic string with
/// escapes (multi-line where it holds a line break).
pub open spec fn quote(s: Seq<char>) -> Seq<char> {
    if literal_ok(s) {
        if has_char(s, '\n') {
            three('\'') + seq!['\n'] + s + three('\'')
        } else if has_char(s, '\'') {
            three('\'') + s + three('\'')
        } else {
            seq!['\''] + s + seq!['\'']
        }
    } else if has_char(s, '\n') {
        three('"') + seq!['\n'] + escape_ml(s) + three('"')
    } else {
        seq!['"'] + escape(s) + seq!['"']
    }
}

/// `key = value` and a line break.
pub open spec fn kv(key: Seq<char>, value: Seq<char>) -> Seq<char> {
    key + seq![' ', '=', ' '] + value + seq!['\n']
}

/// The key of the address.
pub open spec fn ip_key() -> Seq<char> {
    seq!['i', 'p']
}

/// The key of the domain.
pub open spec fn domain_key() -> Seq<char> {
    seq!['d', 'o', 'm', 'a', 'i', 'n']
}

/// The key of the usage flag.
pub open spec fn using_key() -> Seq<char> {
    seq!['u', 's', 'i', 'n', 'g']
}

/// The key of the port list.
pub open spec fn ports_key() -> Seq<char> {
    seq!['o', 'p', 'e', 'n', '_', 'p', 'o', 'r', 't', 's']
}

/// The key of the description.
pub open spec fn description_key() -> Seq<char> {
    seq!['d', 'e', 's', 'c', 'r', 'i', 'p', 't', 'i', 'o', 'n']
}

/// How a flag is written.
pub open spec fn flag_text(b: bool) -> Seq<char> {
    if b {
        seq!['t', 'r', 'u', 'e']
    } else {
        seq!['f', 'a', 'l', 's', 'e']
    }
}

/// The items of a port list written over several lines, each on a line of its own.
pub open spec fn port_items(p: Seq<u32>) -> Seq<char>
    decreases p.len(),
{
    if p.len() == 0 {
        Seq::empty()
    } else {
        seq!['\n', ' ', ' ', ' ', ' '] + decimal_spec(p[0] as nat) + seq![','] + port_items(p.skip(1))
    }
}

/// A port list: on one line when it holds at most one port, else one port a line.
pub open spec fn ports_text(p: Seq<u32>) -> Seq<char> {
    if p.len() == 0 {
        seq!['[', ']']
    } else if p.len() == 1 {
        seq!['['] + decimal_spec(p[0] as nat) + seq![']']
    } else {
        seq!['['] + port_items(p) + seq!['\n', ']']
    }
}

/// The line of an optional field: none where it is absent.
pub open spec fn optional_kv(key: Seq<char>, o: Option<Seq<char>>) -> Seq<char> {
    match o {
        Some(s) => kv(key, quote(s)),
        None => Seq::empty(),
    }
}

/// The text of the record of `e`, its fields in declaration order.
pub open spec fn encode_spec(e: EntryView) -> Seq<char> {
    kv(ip_key(), quote(e.ip)) + optional_kv(domain_key(), e.domain) + kv(
        using_key(),
        flag_text(e.using),
    ) + kv(ports_key(), ports_text(e.open_ports)) + optional_kv(description_key(), e.description)
}

// ---- reading ----

/// Whether `s` starts with `p`.
pub open spec fn starts(s: Seq<char>, p: Seq<char>) -> bool {
    p.len() <= s.len() && s.subrange(0, p.len() as int) == p
}

/// Spaces and tabs.
pub open spec fn is_blank(c: char) -> bool {
    c == ' ' || c == '\t'
}

/// `s` without its leading spaces and tabs.
pub open spec fn skip_ws(s: Seq<char>) -> Seq<char>
    decreases s.len(),
{
    if s.len() > 0 && is_blank(s[0]) {
        skip_ws(s.skip(1))
    } else {
        s
    }
}

/// `s` without its leading blank space, line breaks and comments; `in_comment` says
/// that a comment runs up to the next line break.
pub open spec fn skip_blank(s: Seq<char>, in_comment: bool) -> Seq<char>
    decreases s.len(),
{
    if s.len() == 0 {
        s
    } else if in_comment {
        skip_blank(s.skip(1), s[0] != '\n')
    } else if is_blank(s[0]) || s[0] == '\n' || s[0] == '\r' {
        skip_blank(s.skip(1), false)
    } else if s[0] == '#' {
        skip_blank(s.skip(1), true)
    } else {
        s
    }
}

/// `s` after its first line break, or empty.
pub open spec fn after_line(s: Seq<char>) -> Seq<char>
    decreases s.len(),
{
    if s.len() == 0 {
        s
    } else if s[0] == '\n' {
        s.skip(1)
    } else {
        after_line(s.skip(1))
    }
}

/// The rest of the text after the end of a line: blank space, maybe a comment, then a
/// line break or the end of the text.
pub open spec fn line_end(s: Seq<char>) -> Option<Seq<char>> {
    let t = skip_ws(s);
    if t.len() == 0 {
        Some(t)
    } else if t[0] == '\n' {
        Some(t.skip(1))
    } else if t.len() > 1 && t[0] == '\r' && t[1] == '\n' {
        Some(t.skip(2))
    } else if t[0] == '#' {
        Some(after_line(t))
    } else {
        None
    }
}

/// A character of a bare key.
pub open spec fn key_char(c: char) -> bool {
    ('a' <= c && c <= 'z') || ('A' <= c && c <= 'Z') || ('0' <= c && c <= '9') || c == '_' || c
        == '-'
}

/// The leading characters of `s` that satisfy `key_char`, and the rest.
pub open spec fn key_run(s: Seq<char>) -> (Seq<char>, Seq<char>)
    decreases s.len(),
{
    if s.len() > 0 && key_char(s[0]) {
        let (k, r) = key_run(s.skip(1));
        (seq![s[0]] + k, r)
    } else {
        (Seq::empty(), s)
    }
}

/// The leading digits of `s`, and the rest.
pub open spec fn digit_run(s: Seq<char>) -> (Seq<char>, Seq<char>)
    decreases s.len(),
{
    if s.len() > 0 && is_digit(s[0]) {
        let (k, r) = digit_run(s.skip(1));
        (seq![s[0]] + k, r)
    } else {
        (Seq::empty(), s)
    }
}

/// `c` put before the string that `o` may hold.
pub open spec fn cons(c: char, o: Option<(Seq<char>, Seq<char>)>) -> Option<(Seq<char>, Seq<char>)> {
    match o {
        Some((v, r)) => Some((seq![c] + v, r)),
        None => None,
    }
}

/// The value of a string of hexadecimal digits.
pub open spec fn hex_num(s: Seq<char>) -> Option<nat>
    decreases s.len(),
{
    if s.len() == 0 {
        Some(0)
    } else {
        match (hex_num(s.drop_last()), hex_value(s.last())) {
            (Some(a), Some(b)) => Some(a * 16 + b),
            _ => None,
        }
    }
}

/// Whether `v` is the code of a character.
pub open spec fn is_scalar(v: nat) -> bool {
    v < 0xD800 || (0xE000 <= v && v <= 0x10FFFF)
}

/// The character of an escape `\uXXXX` (`n` is 4) or `\UXXXXXXXX` (`n` is 8) at the
/// start of `s`.
pub open spec fn code_escape(s: Seq<char>, n: int) -> Option<char> {
    if s.len() >= n + 2 && s[1] == (if n == 4 { 'u' } else { 'U' }) {
        match hex_num(s.subrange(2, n + 2)) {
            Some(v) => if is_scalar(v) {
                Some((v as u32) as char)
            } else {
                None
            },
            None => None,
        }
    } else {
        None
    }
}

/// A basic string after its opening quote, up to the closing one; `multi` for a
/// multi-line one, which may hold line breaks and ends at three quotes.
pub open spec fn basic(s: Seq<char>, multi: bool) -> Option<(Seq<char>, Seq<char>)>
    decreases s.len(),
{
    if multi && starts(s, three('"')) {
        Some((Seq::empty(), s.skip(3)))
    } else if s.len() == 0 {
        None
    } else if !multi && s[0] == '"' {
        Some((Seq::empty(), s.skip(1)))
    } else if s[0] == '\\' {
        if s.len() >= 2 && short_escape(s[1]) is Some {
            cons(short_escape(s[1])->0, basic(s.skip(2), multi))
        } else if code_escape(s, 4) is Some {
            cons(code_escape(s, 4)->0, basic(s.skip(6), multi))
        } else if code_escape(s, 8) is Some {
            cons(code_escape(s, 8)->0, basic(s.skip(10), multi))
        } else {
            None
        }
    } else if is_control(s[0]) && s[0] != '\t' && !(multi && s[0] == '\n') {
        None
    } else {
        cons(s[0], basic(s.skip(1), multi))
    }
}

/// A literal string after its opening quote, up to the closing one; `multi` for a
/// multi-line one, which may hold line breaks and ends at three quotes.
pub open spec fn literal(s: Seq<char>, multi: bool) -> Option<(Seq<char>, Seq<char>)>
    decreases s.len(),
{
    if multi && starts(s, three('\'')) {
        Some((Seq::empty(), s.skip(3)))
    } else if s.len() == 0 {
        None
    } else if !multi && s[0] == '\'' {
        Some((Seq::empty(), s.skip(1)))
    } else if !literal_char(s[0]) || (!multi && s[0] == '\n') {
        None
    } else {
        cons(s[0], literal(s.skip(1), multi))
    }
}

/// `s` without the line break that may follow the opening quotes of a multi-line string.
pub open spec fn trim_break(s: Seq<char>) -> Seq<char> {
    if s.len() > 0 && s[0] == '\n' {
        s.skip(1)
    } else if s.len() > 1 && s[0] == '\r' && s[1] == '\n' {
        s.skip(2)
    } else {
        s
    }
}

/// A port: an optional `+` and decimal digits whose value fits in 32 bits.
pub open spec fn port_value(s: Seq<char>) -> Option<(u32, Seq<char>)> {
    let u = if s.len() > 0 && s[0] == '+' { s.skip(1) } else { s };
    let (d, r) = digit_run(u);
    if d.len() > 0 && digits_value(d) <= u32::MAX {
        Some((digits_value(d) as u32, r))
    } else {
        None
    }
}

/// The ports of an array after its opening bracket, after those in `acc`, up to the
/// closing bracket; a comma may follow the last port.
pub open spec fn port_array(s: Seq<char>, acc: Seq<u32>) -> Option<(Seq<u32>, Seq<char>)>
    decreases s.len(),
{
    let u = skip_blank(s, false);
    if u.len() > 0 && u[0] == ']' {
        Some((acc, u.skip(1)))
    } else {
        match port_value(u) {
            Some((n, r)) => {
                let r2 = skip_blank(r, false);
                if r2.len() > 0 && r2[0] == ']' {
                    Some((acc.push(n), r2.skip(1)))
                } else if r2.len() > 0 && r2[0] == ',' && r2.len() <= s.len() {
                    port_array(r2.skip(1), acc.push(n))
                } else {
                    None
                }
            },
            None => None,
        }
    }
}

/// A value of a record.
pub enum Val {
    Str(Seq<char>),
    Flag(bool),
    Ports(Seq<u32>),
}

/// The value at the start of `s`, and the rest.
pub open spec fn value(s: Seq<char>) -> Option<(Val, Seq<char>)> {
    let got = if starts(s, three('"')) {
        basic(trim_break(s.skip(3)), true)
    } else if s.len() > 0 && s[0] == '"' {
        basic(s.skip(1), false)
    } else if starts(s, three('\'')) {
        literal(trim_break(s.skip(3)), true)
    } else if s.len() > 0 && s[0] == '\'' {
        literal(s.skip(1), false)
    } else {
        None
    };
    match got {
        Some((v, r)) => Some((Val::Str(v), r)),
        None => if starts(s, flag_text(true)) {
            Some((Val::Flag(true), s.skip(4)))
        } else if starts(s, flag_text(false)) {
            Some((Val::Flag(false), s.skip(5)))
        } else if s.len() > 0 && s[0] == '[' {
            match port_array(s.skip(1), Seq::empty()) {
                Some((p, r)) => Some((Val::Ports(p), r)),
                None => None,
            }
        } else {
            None
        },
    }
}

/// A line `key = value` at the start of `s`, and the text after it.
pub open spec fn key_value(s: Seq<char>) -> Option<(Seq<char>, Val, Seq<char>)> {
    let (k, r) = key_run(s);
    let r1 = skip_ws(r);
    if k.len() > 0 && r1.len() > 0 && r1[0] == '=' {
        match value(skip_ws(r1.skip(1))) {
            Some((v, r2)) => match line_end(r2) {
                Some(r3) => Some((k, v, r3)),
                None => None,
            },
            None => None,
        }
    } else {
        None
    }
}

/// The fields read so far.
pub struct Fields {
    pub ip: Option<Seq<char>>,
    pub domain: Option<Seq<char>>,
    pub using: Option<bool>,
    pub ports: Option<Seq<u32>>,
    pub description: Option<Seq<char>>,
}

/// No field read yet.
pub open spec fn no_fields() -> Fields {
    Fields { ip: None, domain: None, using: None, ports: None, description: None }
}

/// The fields after `key = v`: a field given twice or with a value of the wrong kind
/// is an error; other keys are ignored.
pub open spec fn assign(f: Fields, key: Seq<char>, v: Val) -> Option<Fields> {
    if key == ip_key() {
        match v {
            Val::Str(s) => if f.ip is None { Some(Fields { ip: Some(s), ..f }) } else { None },
            _ => None,
        }
    } else if key == domain_key() {
        match v {
            Val::Str(s) => if f.domain is None { Some(Fields { domain: Some(s), ..f }) } else { None },
            _ => None,
        }
    } else if key == using_key() {
        match v {
            Val::Flag(b) => if f.using is None { Some(Fields { using: Some(b), ..f }) } else { None },
            _ => None,
        }
    } else if key == ports_key() {
        match v {
            Val::Ports(p) => if f.ports is None { Some(Fields { ports: Some(p), ..f }) } else { None },
            _ => None,
        }
    } else if key == description_key() {
        match v {
            Val::Str(s) => if f.description is None {
                Some(Fields { description: Some(s), ..f })
            } else {
                None
            },
            _ => None,
        }
    } else {
        Some(f)
    }
}

/// The fields of the lines of `s`, after those in `f`.
pub open spec fn table(s: Seq<char>, f: Fields) -> Option<Fields>
    decreases s.len(),
{
    let t = skip_blank(s, false);
    if t.len() == 0 {
        Some(f)
    } else {
        match key_value(t) {
            Some((k, v, r)) => if r.len() < s.len() {
                match assign(f, k, v) {
                    Some(g) => table(r, g),
                    None => None,
                }
            } else {
                None
            },
            None => None,
        }
    }
}

/// The entry of the fields: the address, the flag and the ports must be there.
pub open spec fn finish(f: Fields) -> Option<EntryView> {
    match (f.ip, f.using, f.ports) {
        (Some(ip), Some(using), Some(open_ports)) => Some(
            EntryView { ip, domain: f.domain, using, open_ports, description: f.description },
        ),
        _ => None,
    }
}

/// The entry that a record text describes, if it describes one.
pub open spec fn decode_spec(t: Seq<char>) -> Option<EntryView> {
    match table(t, no_fields()) {
        Some(f) => finish(f),
        None => None,
    }
}

/// Escaping for a multi-line string distributes over appending one character.
proof fn lemma_escape_ml_push(s: Seq<char>, c: char)
    ensures
        escape_ml(s.push(c)) == escape_ml(s) + escape_char_ml(c),
    decreases s.len(),
{
    if s.len() == 0 {
        assert(s.push(c).skip(1) =~= Seq::<char>::empty());
        assert(escape_ml(Seq::<char>::empty()) == Seq::<char>::empty());
        assert(escape_ml(s.push(c)) =~= escape_char_ml(c));
    } else {
        lemma_escape_ml_push(s.skip(1), c);
        assert(s.push(c).skip(1) =~= s.skip(1).push(c));
        assert(escape_ml(s.push(c)) =~= escape_ml(s) + escape_char_ml(c));
    }
}

/// The items of a port list grow by one item for each port appended.
proof fn lemma_port_items_push(p: Seq<u32>, n: u32)
    ensures
        port_items(p.push(n)) == port_items(p) + seq!['\n', ' ', ' ', ' ', ' '] + decimal_spec(
            n as nat,
        ) + seq![','],
    decreases p.len(),
{
    if p.len() == 0 {
        assert(p.push(n).skip(1) =~= Seq::<u32>::empty());
        assert(port_items(Seq::<u32>::empty()) == Seq::<char>::empty());
        assert(port_items(p.push(n)) =~= port_items(p) + seq!['\n', ' ', ' ', ' ', ' ']
            + decimal_spec(n as nat) + seq![',']);
    } else {
        lemma_port_items_push(p.skip(1), n);
        assert(p.push(n).skip(1) =~= p.skip(1).push(n));
        assert(p.push(n)[0] == p[0]);
        assert(port_items(p.push(n)) =~= port_items(p) + seq!['\n', ' ', ' ', ' ', ' ']
            + decimal_spec(n as nat) + seq![',']);
    }
}

/// Whether `s` can be written as a literal string.
fn literal_fits(s: &Vec<char>) -> (r: bool)
    ensures
        r == literal_ok(s@),
{
    let n = s.len();
    let mut i: usize = 0;
    while i < n
        invariant
            n == s.len(),
            i <= n,
            forall|j: int| 0 <= j < i ==> literal_char(#[trigger] s@[j]),
            forall|j: int|
                0 <= j && j + 2 < n && j < i ==> !(#[trigger] s@[j] == '\'' && s@[j + 1] == '\''
                    && s@[j + 2] == '\''),
        decreases n - i,
    {
        let c = s[i];
        if (c as u32) < 0x20 && c != '\t' && c != '\n' || (c as u32) == 0x7f {
            assert(!literal_char(s@[i as int]));
            return false;
        }
        if n - i > 2 && c == '\'' && s[i + 1] == '\'' && s[i + 2] == '\'' {
            return false;
        }
        i = i + 1;
    }
    if n > 0 && s[n - 1] == '\'' {
        return false;
    }
    true
}

/// Whether `s` holds `c`.
fn holds_char(s: &Vec<char>, c: char) -> (r: bool)
    ensures
        r == has_char(s@, c),
{
    let mut i: usize = 0;
    while i < s.len()
        invariant
            i <= s.len(),
            forall|j: int| 0 <= j < i ==> s@[j] != c,
        decreases s.len() - i,
    {
        if s[i] == c {
            return true;
        }
        i = i + 1;
    }
    false
}

/// Appends the escaped form of `s` to `out`, line breaks kept as they are where
/// `multi` holds.
fn push_escaped(out: &mut Vec<char>, s: &Vec<char>, multi: bool)
    ensures
        final(out)@ == old(out)@ + (if multi { escape_ml(s@) } else { escape(s@) }),
{
    let ghost start = out@;
    let mut i: usize = 0;
    while i < s.len()
        invariant
            i <= s.len(),
            out@ == start + (if multi { escape_ml(s@.subrange(0, i as int)) } else { escape(
                s@.subrange(0, i as int),
            ) }),
        decreases s.len() - i,
    {
        let c = s[i];
        if multi && c == '\n' {
            out.push('\n');
        } else {
            let e = escape_one(c);
            push_all(out, &e);
        }
        proof {
            let pre = s@.subrange(0, i as int);
            assert(s@.subrange(0, i + 1) =~= pre.push(c));
            lemma_escape_push(pre, c);
            lemma_escape_ml_push(pre, c);
            assert(out@ =~= start + (if multi { escape_ml(pre.push(c)) } else { escape(pre.push(c)) }));
        }
        i = i + 1;
    }
    assert(s@.subrange(0, s.len() as int) =~= s@);
}

/// `s` as a record writes it.
pub fn quote_chars(s: &Vec<char>) -> (r: Vec<char>)
    ensures
        r@ == quote(s@),
{
    let nl = holds_char(s, '\n');
    let mut out: Vec<char> = Vec::new();
    if literal_fits(s) {
        if nl {
            out = vec!['\'', '\'', '\'', '\n'];
        } else if holds_char(s, '\'') {
            out = vec!['\'', '\'', '\''];
        } else {
            out = vec!['\''];
        }
        push_all(&mut out, s);
        if nl || holds_char(s, '\'') {
            let close = vec!['\'', '\'', '\''];
            push_all(&mut out, &close);
        } else {
            out.push('\'');
        }
    } else {
        if nl {
            out = vec!['"', '"', '"', '\n'];
        } else {
            out = vec!['"'];
        }
        push_escaped(&mut out, s, nl);
        if nl {
            let close = vec!['"', '"', '"'];
            push_all(&mut out, &close);
        } else {
            out.push('"');
        }
    }
    assert(out@ =~= quote(s@));
    out
}

/// Appends `key = value` and a line break to `out`.
fn push_kv(out: &mut Vec<char>, key: &Vec<char>, value: &Vec<char>)
    ensures
        final(out)@ == old(out)@ + kv(key@, value@),
{
    push_all(out, key);
    let sep = vec![' ', '=', ' '];
    push_all(out, &sep);
    push_all(out, value);
    out.push('\n');
    assert(final(out)@ =~= old(out)@ + kv(key@, value@));
}

/// The text of a port list.
fn ports_chars(p: &Vec<u32>) -> (r: Vec<char>)
    ensures
        r@ == ports_text(p@),
{
    let mut out = vec!['['];
    if p.len() == 1 {
        let d = decimal(p[0]);
        push_all(&mut out, &d);
    } else if p.len() > 1 {
        let mut i: usize = 0;
        while i < p.len()
            invariant
                i <= p.len(),
                out@ == seq!['['] + port_items(p@.subrange(0, i as int)),
            decreases p.len() - i,
        {
            let item = vec!['\n', ' ', ' ', ' ', ' '];
            push_all(&mut out, &item);
            let d = decimal(p[i]);
            push_all(&mut out, &d);
            out.push(',');
            proof {
                let pre = p@.subrange(0, i as int);
                assert(p@.subrange(0, i + 1) =~= pre.push(p@[i as int]));
                lemma_port_items_push(pre, p@[i as int]);
                assert(out@ =~= seq!['['] + port_items(p@.subrange(0, i + 1)));
            }
            i = i + 1;
        }
        assert(p@.subrange(0, p.len() as int) =~= p@);
        out.push('\n');
    } else {
        assert(out@ =~= seq!['[']);
    }
    out.push(']');
    assert(out@ =~= ports_text(p@)) by {
        if p.len() == 0 {
        } else if p.len() == 1 {
        } else {
        }
    }
    out
}

/// The key of the address.
fn ip_key_chars() -> (r: Vec<char>)
    ensures
        r@ == ip_key(),
{
    let r = vec!['i', 'p'];
    assert(r@ =~= ip_key());
    r
}

/// The key of the domain.
fn domain_key_chars() -> (r: Vec<char>)
    ensures
        r@ == domain_key(),
{
    let r = vec!['d', 'o', 'm', 'a', 'i', 'n'];
    assert(r@ =~= domain_key());
    r
}

/// The key of the usage flag.
fn using_key_chars() -> (r: Vec<char>)
    ensures
        r@ == using_key(),
{
    let r = vec!['u', 's', 'i', 'n', 'g'];
    assert(r@ =~= using_key());
    r
}

/// The key of the port list.
fn ports_key_chars() -> (r: Vec<char>)
    ensures
        r@ == ports_key(),
{
    let r = vec!['o', 'p', 'e', 'n', '_', 'p', 'o', 'r', 't', 's'];
    assert(r@ =~= ports_key());
    r
}

/// The key of the description.
fn description_key_chars() -> (r: Vec<char>)
    ensures
        r@ == description_key(),
{
    let r = vec!['d', 'e', 's', 'c', 'r', 'i', 'p', 't', 'i', 'o', 'n'];
    assert(r@ =~= description_key());
    r
}

/// How a flag is written.
fn flag_chars(b: bool) -> (r: Vec<char>)
    ensures
        r@ == flag_text(b),
{
    let r = if b {
        vec!['t', 'r', 'u', 'e']
    } else {
        vec!['f', 'a', 'l', 's', 'e']
    };
    assert(r@ =~= flag_text(b));
    r
}

/// Appends the line of a string field.
fn push_string_kv(out: &mut Vec<char>, key: &Vec<char>, s: &String)
    ensures
        final(out)@ == old(out)@ + kv(key@, quote(s@)),
{
    let cs = chars_of(s.as_str());
    let q = quote_chars(&cs);
    push_kv(out, key, &q);
}

impl Entry {
    /// The characters of the record of this entry.
    pub fn encode_chars(&self) -> (r: Vec<char>)
        ensures
            r@ == encode_spec(self@),
    {
        let mut out: Vec<char> = Vec::new();
        push_string_kv(&mut out, &ip_key_chars(), &self.ip);
        let ghost a = out@;
        match &self.domain {
            Some(d) => push_string_kv(&mut out, &domain_key_chars(), d),
            None => {},
        }
        assert(out@ =~= a + optional_kv(domain_key(), self@.domain));
        push_kv(&mut out, &using_key_chars(), &flag_chars(self.using));
        push_kv(&mut out, &ports_key_chars(), &ports_chars(&self.open_ports));
        let ghost b = out@;
        match &self.description {
            Some(d) => push_string_kv(&mut out, &description_key_chars(), d),
            None => {},
        }
        assert(out@ =~= b + optional_kv(description_key(), self@.description));
        assert(out@ =~= encode_spec(self@));
        out
    }

    /// The text of the record file of this entry.
    pub fn encode(&self) -> (r: String)
        ensures
            r@ == encode_spec(self@),
    {
        let cs = self.encode_chars();
        string_of(&cs)
    }
}

/// Relies on `char::from_u32`: the character of a code, where the code is one.
#[verifier::external_body]
fn char_of_code(v: u32) -> (r: Option<char>)
    ensures
        is_scalar(v as nat) ==> r == Some(v as char),
        !is_scalar(v as nat) ==> r is None,
{
    char::from_u32(v)
}

/// `skip_ws` on the text from `i`.
fn skip_ws_at(t: &Vec<char>, i: usize) -> (j: usize)
    requires
        i <= t.len(),
    ensures
        i <= j <= t.len(),
        skip_ws(t@.skip(i as int)) == t@.skip(j as int),
{
    let mut j = i;
    while j < t.len() && (t[j] == ' ' || t[j] == '\t')
        invariant
            i <= j <= t.len(),
            skip_ws(t@.skip(i as int)) == skip_ws(t@.skip(j as int)),
        decreases t.len() - j,
    {
        assert(t@.skip(j as int)[0] == t@[j as int]);
        assert(t@.skip(j as int).skip(1) =~= t@.skip(j + 1));
        j = j + 1;
    }
    proof {
        if j < t.len() {
            assert(t@.skip(j as int)[0] == t@[j as int]);
        }
    }
    j
}

/// `skip_blank` on the text from `i`.
fn skip_blank_at(t: &Vec<char>, i: usize) -> (j: usize)
    requires
        i <= t.len(),
    ensures
        i <= j <= t.len(),
        skip_blank(t@.skip(i as int), false) == t@.skip(j as int),
{
    let mut j = i;
    let mut in_comment = false;
    while j < t.len()
        invariant
            i <= j <= t.len(),
            skip_blank(t@.skip(i as int), false) == skip_blank(t@.skip(j as int), in_comment),
        decreases t.len() - j,
    {
        let c = t[j];
        assert(t@.skip(j as int)[0] == c);
        assert(t@.skip(j as int).skip(1) =~= t@.skip(j + 1));
        if in_comment {
            in_comment = c != '\n';
        } else if c == ' ' || c == '\t' || c == '\n' || c == '\r' {
        } else if c == '#' {
            in_comment = true;
        } else {
            return j;
        }
        j = j + 1;
    }
    assert(t@.skip(j as int) =~= Seq::<char>::empty());
    j
}

/// `line_end` on the text from `i`.
fn line_end_at(t: &Vec<char>, i: usize) -> (r: Option<usize>)
    requires
        i <= t.len(),
    ensures
        r matches Some(j) ==> j <= t.len() && line_end(t@.skip(i as int)) == Some(t@.skip(j as int)),
        r is None ==> line_end(t@.skip(i as int)) is None,
{
    let j = skip_ws_at(t, i);
    let ghost u = t@.skip(j as int);
    if j == t.len() {
        return Some(j);
    }
    assert(u[0] == t@[j as int]);
    if t[j] == '\n' {
        assert(u.skip(1) =~= t@.skip(j + 1));
        return Some(j + 1);
    }
    if j + 1 < t.len() && t[j] == '\r' && t[j + 1] == '\n' {
        assert(u[1] == t@[j + 1]);
        assert(u.skip(2) =~= t@.skip(j + 2));
        return Some(j + 2);
    }
    proof {
        if u.len() > 1 {
            assert(u[1] == t@[j + 1]);
        }
    }
    if t[j] == '#' {
        let mut k = j;
        while k < t.len() && t[k] != '\n'
            invariant
                j <= k <= t.len(),
                after_line(u) == after_line(t@.skip(k as int)),
            decreases t.len() - k,
        {
            assert(t@.skip(k as int)[0] == t@[k as int]);
            assert(t@.skip(k as int).skip(1) =~= t@.skip(k + 1));
            k = k + 1;
        }
        if k < t.len() {
            assert(t@.skip(k as int)[0] == t@[k as int]);
            assert(t@.skip(k as int).skip(1) =~= t@.skip(k + 1));
            return Some(k + 1);
        }
        return Some(k);
    }
    None
}

/// The end of the run of key characters from `i`.
fn key_run_at(t: &Vec<char>, i: usize) -> (j: usize)
    requires
        i <= t.len(),
    ensures
        i <= j <= t.len(),
        key_run(t@.skip(i as int)) == (t@.subrange(i as int, j as int), t@.skip(j as int)),
{
    let mut j = i;
    while j < t.len() && (('a' <= t[j] && t[j] <= 'z') || ('A' <= t[j] && t[j] <= 'Z') || ('0'
        <= t[j] && t[j] <= '9') || t[j] == '_' || t[j] == '-')
        invariant
            i <= j <= t.len(),
            key_run(t@.skip(i as int)) == (t@.subrange(i as int, j as int) + key_run(
                t@.skip(j as int),
            ).0, key_run(t@.skip(j as int)).1),
        decreases t.len() - j,
    {
        assert(t@.skip(j as int)[0] == t@[j as int]);
        assert(t@.skip(j as int).skip(1) =~= t@.skip(j + 1));
        assert(t@.subrange(i as int, j + 1) =~= t@.subrange(i as int, j as int) + seq![t@[j as int]]);
        j = j + 1;
    }
    proof {
        if j < t.len() {
            assert(t@.skip(j as int)[0] == t@[j as int]);
        }
        assert(t@.subrange(i as int, j as int) + Seq::<char>::empty() =~= t@.subrange(i as int, j as int));
    }
    j
}

/// The end of the run of digits from `i`.
fn digit_run_at(t: &Vec<char>, i: usize) -> (j: usize)
    requires
        i <= t.len(),
    ensures
        i <= j <= t.len(),
        digit_run(t@.skip(i as int)) == (t@.subrange(i as int, j as int), t@.skip(j as int)),
        all_digits(t@.subrange(i as int, j as int)),
{
    let mut j = i;
    while j < t.len() && '0' <= t[j] && t[j] <= '9'
        invariant
            i <= j <= t.len(),
            digit_run(t@.skip(i as int)) == (t@.subrange(i as int, j as int) + digit_run(
                t@.skip(j as int),
            ).0, digit_run(t@.skip(j as int)).1),
            all_digits(t@.subrange(i as int, j as int)),
        decreases t.len() - j,
    {
        assert(t@.skip(j as int)[0] == t@[j as int]);
        assert(t@.skip(j as int).skip(1) =~= t@.skip(j + 1));
        assert(t@.subrange(i as int, j + 1) =~= t@.subrange(i as int, j as int) + seq![t@[j as int]]);
        j = j + 1;
    }
    proof {
        if j < t.len() {
            assert(t@.skip(j as int)[0] == t@[j as int]);
        }
        assert(t@.subrange(i as int, j as int) + Seq::<char>::empty() =~= t@.subrange(i as int, j as int));
    }
    j
}

/// The string that `o` may hold, after `out`.
pub open spec fn after(out: Seq<char>, o: Option<(Seq<char>, Seq<char>)>) -> Option<(Seq<char>, Seq<char>)> {
    match o {
        Some((v, r)) => Some((out + v, r)),
        None => None,
    }
}

/// The character of the short escape `\x`.
fn short_escape_of(x: char) -> (r: Option<char>)
    ensures
        r == short_escape(x),
{
    if x == '"' {
        Some('"')
    } else if x == '\\' {
        Some('\\')
    } else if x == 'n' {
        Some('\n')
    } else if x == 'r' {
        Some('\r')
    } else if x == 't' {
        Some('\t')
    } else if x == 'b' {
        Some('\x08')
    } else if x == 'f' {
        Some('\x0C')
    } else {
        None
    }
}

/// The value of a hexadecimal digit.
fn hex_digit_value(c: char) -> (r: Option<u32>)
    ensures
        r matches Some(v) ==> hex_value(c) == Some(v as nat) && v < 16,
        r is None ==> hex_value(c) is None,
{
    if '0' <= c && c <= '9' {
        Some(c as u32 - 48)
    } else if 'A' <= c && c <= 'F' {
        Some(c as u32 - 55)
    } else if 'a' <= c && c <= 'f' {
        Some(c as u32 - 87)
    } else {
        None
    }
}

/// The character of a code escape of `n` digits at `i`.
fn code_escape_at(t: &Vec<char>, i: usize, n: usize) -> (r: Option<char>)
    requires
        i <= t.len(),
        n == 4 || n == 8,
    ensures
        r == code_escape(t@.skip(i as int), n as int),
        r is Some ==> i + n + 2 <= t.len(),
{
    let ghost u = t@.skip(i as int);
    let letter = if n == 4 { 'u' } else { 'U' };
    if t.len() - i < n + 2 || t[i + 1] != letter {
        proof {
            if u.len() >= n + 2 {
                assert(u[1] == t@[i + 1]);
            }
        }
        return None;
    }
    assert(u[1] == t@[i + 1]);
    let mut k: usize = 0;
    let mut v: u64 = 0;
    while k < n
        invariant
            k <= n,
            n == 4 || n == 8,
            i + n + 2 <= t.len(),
            u == t@.skip(i as int),
            hex_num(u.subrange(2, k + 2)) == Some(v as nat),
            v < 0x1_0000_0000,
            k <= 8,
            v as nat <= (if k == 0 { 0nat } else if k == 1 { 15nat } else if k == 2 { 0xFFnat } else if k == 3 { 0xFFFnat } else if k == 4 { 0xFFFFnat } else if k == 5 { 0xF_FFFFnat } else if k == 6 { 0xFF_FFFFnat } else if k == 7 { 0xFFF_FFFFnat } else { 0xFFFF_FFFFnat }),
        decreases n - k,
    {
        let c = t[i + 2 + k];
        assert(u[k + 2] == c);
        let ghost pre = u.subrange(2, k + 3);
        assert(pre.drop_last() =~= u.subrange(2, k + 2));
        assert(pre.last() == c);
        match hex_digit_value(c) {
            Some(d) => {
                v = v * 16 + d as u64;
            },
            None => {
                proof {
                    let mut m: int = k + 3;
                    assert(hex_num(pre) is None);
                    assert forall|m: int| k + 3 <= m <= n + 2 implies #[trigger] hex_num(u.subrange(2, m)) is None by {
                        lemma_hex_none(u, 2, k + 3, m);
                    }
                }
                return None;
            },
        }
        k = k + 1;
    }
    match char_of_code(v as u32) {
        Some(ch) => Some(ch),
        None => None,
    }
}

/// A failure in reading hexadecimal digits stays a failure with more digits.
proof fn lemma_hex_none(u: Seq<char>, a: int, b: int, m: int)
    requires
        0 <= a <= b <= m <= u.len(),
        hex_num(u.subrange(a, b)) is None,
    ensures
        hex_num(u.subrange(a, m)) is None,
    decreases m - b,
{
    if m > b {
        lemma_hex_none(u, a, b, m - 1);
        assert(u.subrange(a, m).drop_last() =~= u.subrange(a, m - 1));
    }
}

/// A basic string from `i`, after its opening quote.
fn basic_at(t: &Vec<char>, i: usize, multi: bool) -> (r: Option<(Vec<char>, usize)>)
    requires
        i <= t.len(),
    ensures
        r matches Some((v, j)) ==> j <= t.len() && basic(t@.skip(i as int), multi) == Some((v@, t@.skip(j as int))),
        r is None ==> basic(t@.skip(i as int), multi) is None,
{
    let mut out: Vec<char> = Vec::new();
    let mut k = i;
    loop
        invariant
            i <= k <= t.len(),
            basic(t@.skip(i as int), multi) == after(out@, basic(t@.skip(k as int), multi)),
        decreases t.len() - k,
    {
        let ghost u = t@.skip(k as int);
        if multi && t.len() - k >= 3 && t[k] == '"' && t[k + 1] == '"' && t[k + 2] == '"' {
            assert(u.subrange(0, 3) =~= three('"'));
            assert(u.skip(3) =~= t@.skip(k + 3));
            assert(out@ + Seq::<char>::empty() =~= out@);
            return Some((out, k + 3));
        }
        proof {
            if multi && u.len() >= 3 {
                assert(u[0] == t@[k as int] && u[1] == t@[k + 1] && u[2] == t@[k + 2]);
                if starts(u, three('"')) {
                    assert(u.subrange(0, 3)[0] == u[0] && u.subrange(0, 3)[1] == u[1] && u.subrange(0, 3)[2] == u[2]);
                }
            }
        }
        if k == t.len() {
            return None;
        }
        let c = t[k];
        assert(u[0] == c);
        if !multi && c == '"' {
            assert(u.skip(1) =~= t@.skip(k + 1));
            assert(out@ + Seq::<char>::empty() =~= out@);
            return Some((out, k + 1));
        }
        if c == '\\' {
            let mut done = false;
            if k + 1 < t.len() {
                assert(u[1] == t@[k + 1]);
                match short_escape_of(t[k + 1]) {
                    Some(x) => {
                        assert(u.skip(2) =~= t@.skip(k + 2));
                        assert(out@.push(x) =~= out@ + seq![x]);
                        proof {
                            match basic(t@.skip(k + 2), multi) {
                                Some((v, r)) => { assert(out@.push(x) + v =~= out@ + (seq![x] + v)); },
                                None => {},
                            }
                        }
                        out.push(x);
                        k = k + 2;
                        done = true;
                    },
                    None => {},
                }
            }
            if !done {
                proof {
                    if u.len() >= 2 {
                        assert(u[1] == t@[k + 1]);
                    }
                }
                match code_escape_at(t, k, 4) {
                    Some(x) => {
                        assert(u.skip(6) =~= t@.skip(k + 6));
                        proof {
                            match basic(t@.skip(k + 6), multi) {
                                Some((v, r)) => { assert(out@.push(x) + v =~= out@ + (seq![x] + v)); },
                                None => {},
                            }
                        }
                        out.push(x);
                        k = k + 6;
                    },
                    None => match code_escape_at(t, k, 8) {
                        Some(x) => {
                            assert(u.skip(10) =~= t@.skip(k + 10));
                            proof {
                                match basic(t@.skip(k + 10), multi) {
                                    Some((v, r)) => { assert(out@.push(x) + v =~= out@ + (seq![x] + v)); },
                                    None => {},
                                }
                            }
                            out.push(x);
                            k = k + 10;
                        },
                        None => {
                            return None;
                        },
                    },
                }
            }
        } else if ((c as u32) < 0x20 || (c as u32) == 0x7f) && c != '\t' && !(multi && c == '\n') {
            return None;
        } else {
            assert(u.skip(1) =~= t@.skip(k + 1));
            proof {
                match basic(t@.skip(k + 1), multi) {
                    Some((v, r)) => { assert(out@.push(c) + v =~= out@ + (seq![c] + v)); },
                    None => {},
                }
            }
            out.push(c);
            k = k + 1;
        }
    }
}

/// A literal string from `i`, after its opening quote.
fn literal_at(t: &Vec<char>, i: usize, multi: bool) -> (r: Option<(Vec<char>, usize)>)
    requires
        i <= t.len(),
    ensures
        r matches Some((v, j)) ==> j <= t.len() && literal(t@.skip(i as int), multi) == Some((v@, t@.skip(j as int))),
        r is None ==> literal(t@.skip(i as int), multi) is None,
{
    let mut out: Vec<char> = Vec::new();
    let mut k = i;
    loop
        invariant
            i <= k <= t.len(),
            literal(t@.skip(i as int), multi) == after(out@, literal(t@.skip(k as int), multi)),
        decreases t.len() - k,
    {
        let ghost u = t@.skip(k as int);
        if multi && t.len() - k >= 3 && t[k] == '\'' && t[k + 1] == '\'' && t[k + 2] == '\'' {
            assert(u.subrange(0, 3) =~= three('\''));
            assert(u.skip(3) =~= t@.skip(k + 3));
            assert(out@ + Seq::<char>::empty() =~= out@);
            return Some((out, k + 3));
        }
        proof {
            if multi && u.len() >= 3 {
                assert(u[0] == t@[k as int] && u[1] == t@[k + 1] && u[2] == t@[k + 2]);
                if starts(u, three('\'')) {
                    assert(u.subrange(0, 3)[0] == u[0] && u.subrange(0, 3)[1] == u[1] && u.subrange(0, 3)[2] == u[2]);
                }
            }
        }
        if k == t.len() {
            return None;
        }
        let c = t[k];
        assert(u[0] == c);
        if !multi && c == '\'' {
            assert(u.skip(1) =~= t@.skip(k + 1));
            assert(out@ + Seq::<char>::empty() =~= out@);
            return Some((out, k + 1));
        }
        if (((c as u32) < 0x20 || (c as u32) == 0x7f) && c != '\t' && c != '\n') || (!multi && c == '\n') {
            return None;
        }
        assert(u.skip(1) =~= t@.skip(k + 1));
        proof {
            match literal(t@.skip(k + 1), multi) {
                Some((v, r)) => { assert(out@.push(c) + v =~= out@ + (seq![c] + v)); },
                None => {},
            }
        }
        out.push(c);
        k = k + 1;
    }
}

/// A port from `i`.
fn port_value_at(t: &Vec<char>, i: usize) -> (r: Option<(u32, usize)>)
    requires
        i <= t.len(),
    ensures
        r matches Some((n, j)) ==> j <= t.len() && port_value(t@.skip(i as int)) == Some((n, t@.skip(j as int))),
        r is None ==> port_value(t@.skip(i as int)) is None,
{
    let ghost s = t@.skip(i as int);
    let mut u = i;
    if i < t.len() && t[i] == '+' {
        u = i + 1;
    }
    proof {
        if s.len() > 0 {
            assert(s[0] == t@[i as int]);
        }
        if u == i + 1 {
            assert(s.skip(1) =~= t@.skip(u as int));
        }
    }
    let j = digit_run_at(t, u);
    if j == u {
        return None;
    }
    let d = crate::text::slice_chars(t, u, j);
    assert(d@[0] == t@[u as int]);
    assert(crate::number::unsigned_digits(d@) == d@);
    match crate::number::parse_u32(&d) {
        Some(n) => Some((n, j)),
        None => None,
    }
}

/// The ports of an array from `i`, after its opening bracket.
fn port_array_at(t: &Vec<char>, i: usize) -> (r: Option<(Vec<u32>, usize)>)
    requires
        i <= t.len(),
    ensures
        r matches Some((p, j)) ==> j <= t.len() && port_array(t@.skip(i as int), Seq::empty()) == Some((p@, t@.skip(j as int))),
        r is None ==> port_array(t@.skip(i as int), Seq::empty()) is None,
{
    let mut acc: Vec<u32> = Vec::new();
    let mut k = i;
    while k <= t.len()
        invariant
            i <= k <= t.len(),
            port_array(t@.skip(i as int), Seq::empty()) == port_array(t@.skip(k as int), acc@),
        decreases t.len() - k,
    {
        let ghost s = t@.skip(k as int);
        let b = skip_blank_at(t, k);
        if b < t.len() && t[b] == ']' {
            assert(t@.skip(b as int)[0] == t@[b as int]);
            assert(t@.skip(b as int).skip(1) =~= t@.skip(b + 1));
            return Some((acc, b + 1));
        }
        proof {
            if b < t.len() {
                assert(t@.skip(b as int)[0] == t@[b as int]);
            }
        }
        match port_value_at(t, b) {
            Some((n, r)) => {
                let r2 = skip_blank_at(t, r);
                proof {
                    if r2 < t.len() {
                        assert(t@.skip(r2 as int)[0] == t@[r2 as int]);
                    }
                }
                if r2 < t.len() && t[r2] == ']' {
                    assert(t@.skip(r2 as int).skip(1) =~= t@.skip(r2 + 1));
                    acc.push(n);
                    return Some((acc, r2 + 1));
                } else if r2 < t.len() && t[r2] == ',' && r2 >= k {
                    assert(t@.skip(r2 as int).skip(1) =~= t@.skip(r2 + 1));
                    acc.push(n);
                    k = r2 + 1;
                } else {
                    return None;
                }
            },
            None => {
                return None;
            },
        }
    }
    None
}

/// A value of a record.
pub enum Value {
    Str(Vec<char>),
    Flag(bool),
    Ports(Vec<u32>),
}

/// What a value holds.
pub open spec fn value_view(v: Value) -> Val {
    match v {
        Value::Str(s) => Val::Str(s@),
        Value::Flag(b) => Val::Flag(b),
        Value::Ports(p) => Val::Ports(p@),
    }
}

/// Whether the text from `i` starts with `c` three times.
fn three_at(t: &Vec<char>, i: usize, c: char) -> (r: bool)
    requires
        i <= t.len(),
    ensures
        r == starts(t@.skip(i as int), three(c)),
{
    let ghost u = t@.skip(i as int);
    if t.len() - i >= 3 && t[i] == c && t[i + 1] == c && t[i + 2] == c {
        assert(u.subrange(0, 3) =~= three(c));
        true
    } else {
        proof {
            if u.len() >= 3 && starts(u, three(c)) {
                assert(u.subrange(0, 3)[0] == u[0] && u.subrange(0, 3)[1] == u[1] && u.subrange(0, 3)[2] == u[2]);
                assert(u[0] == t@[i as int] && u[1] == t@[i + 1] && u[2] == t@[i + 2]);
            }
        }
        false
    }
}

/// Whether the text from `i` starts with `p`.
fn starts_at(t: &Vec<char>, i: usize, p: &Vec<char>) -> (r: bool)
    requires
        i <= t.len(),
    ensures
        r == starts(t@.skip(i as int), p@),
{
    if t.len() - i < p.len() {
        return false;
    }
    let mut k: usize = 0;
    while k < p.len()
        invariant
            k <= p.len(),
            i + p.len() <= t.len(),
            forall|m: int| 0 <= m < k ==> t@[i + m] == p@[m],
        decreases p.len() - k,
    {
        if t[i + k] != p[k] {
            assert(t@.skip(i as int).subrange(0, p.len() as int)[k as int] == t@[i + k]);
            return false;
        }
        k = k + 1;
    }
    assert(t@.skip(i as int).subrange(0, p.len() as int) =~= p@);
    true
}

/// The position after the line break that may follow opening triple quotes at `i`.
fn trim_break_at(t: &Vec<char>, i: usize) -> (j: usize)
    requires
        i <= t.len(),
    ensures
        j <= t.len(),
        trim_break(t@.skip(i as int)) == t@.skip(j as int),
{
    let ghost u = t@.skip(i as int);
    if i < t.len() && t[i] == '\n' {
        assert(u[0] == t@[i as int]);
        assert(u.skip(1) =~= t@.skip(i + 1));
        i + 1
    } else if t.len() - i > 1 && t[i] == '\r' && t[i + 1] == '\n' {
        assert(u[0] == t@[i as int] && u[1] == t@[i + 1]);
        assert(u.skip(2) =~= t@.skip(i + 2));
        i + 2
    } else {
        proof {
            if u.len() > 0 {
                assert(u[0] == t@[i as int]);
            }
            if u.len() > 1 {
                assert(u[1] == t@[i + 1]);
            }
        }
        i
    }
}

/// The value from `i`.
fn value_at(t: &Vec<char>, i: usize) -> (r: Option<(Value, usize)>)
    requires
        i <= t.len(),
    ensures
        r matches Some((v, j)) ==> j <= t.len() && value(t@.skip(i as int)) == Some((value_view(v), t@.skip(j as int))),
        r is None ==> value(t@.skip(i as int)) is None,
{
    let ghost s = t@.skip(i as int);
    proof {
        if s.len() > 0 {
            assert(s[0] == t@[i as int]);
        }
        if s.len() >= 1 {
            assert(s.skip(1) =~= t@.skip(i + 1));
        }
        if s.len() >= 3 {
            assert(s.skip(3) =~= t@.skip(i + 3));
        }
    }
    let got = if three_at(t, i, '"') {
        let j = trim_break_at(t, i + 3);
        basic_at(t, j, true)
    } else if i < t.len() && t[i] == '"' {
        basic_at(t, i + 1, false)
    } else if three_at(t, i, '\'') {
        let j = trim_break_at(t, i + 3);
        literal_at(t, j, true)
    } else if i < t.len() && t[i] == '\'' {
        literal_at(t, i + 1, false)
    } else {
        None
    };
    match got {
        Some((v, j)) => Some((Value::Str(v), j)),
        None => {
            if starts_at(t, i, &flag_chars(true)) {
                assert(s.skip(4) =~= t@.skip(i + 4));
                Some((Value::Flag(true), i + 4))
            } else if starts_at(t, i, &flag_chars(false)) {
                assert(s.skip(5) =~= t@.skip(i + 5));
                Some((Value::Flag(false), i + 5))
            } else if i < t.len() && t[i] == '[' {
                match port_array_at(t, i + 1) {
                    Some((p, j)) => Some((Value::Ports(p), j)),
                    None => None,
                }
            } else {
                None
            }
        },
    }
}

/// A line `key = value` from `i`.
fn key_value_at(t: &Vec<char>, i: usize) -> (r: Option<(Vec<char>, Value, usize)>)
    requires
        i <= t.len(),
    ensures
        r matches Some((k, v, j)) ==> j <= t.len() && key_value(t@.skip(i as int)) == Some((k@, value_view(v), t@.skip(j as int))),
        r is None ==> key_value(t@.skip(i as int)) is None,
{
    let e = key_run_at(t, i);
    let w = skip_ws_at(t, e);
    proof {
        if w < t.len() {
            assert(t@.skip(w as int)[0] == t@[w as int]);
        }
    }
    if e == i || w == t.len() || t[w] != '=' {
        return None;
    }
    assert(t@.skip(w as int).skip(1) =~= t@.skip(w + 1));
    let v0 = skip_ws_at(t, w + 1);
    match value_at(t, v0) {
        Some((v, r)) => match line_end_at(t, r) {
            Some(j) => {
                let k = crate::text::slice_chars(t, i, e);
                Some((k, v, j))
            },
            None => None,
        },
        None => None,
    }
}

/// The fields read so far.
struct FieldsRead {
    ip: Option<Vec<char>>,
    domain: Option<Vec<char>>,
    using: Option<bool>,
    ports: Option<Vec<u32>>,
    description: Option<Vec<char>>,
}

/// The characters of an optional character vector.
pub open spec fn opt_chars(o: Option<Vec<char>>) -> Option<Seq<char>> {
    match o {
        Some(v) => Some(v@),
        None => None,
    }
}

/// The ports of an optional vector.
pub open spec fn opt_ports(o: Option<Vec<u32>>) -> Option<Seq<u32>> {
    match o {
        Some(v) => Some(v@),
        None => None,
    }
}

/// What the fields read so far hold.
spec fn fields_view(f: FieldsRead) -> Fields {
    Fields {
        ip: opt_chars(f.ip),
        domain: opt_chars(f.domain),
        using: f.using,
        ports: opt_ports(f.ports),
        description: opt_chars(f.description),
    }
}

/// Records `key = v` in `f`; `false` where that is an error.
fn assign_exec(f: &mut FieldsRead, key: &Vec<char>, v: Value) -> (ok: bool)
    ensures
        ok ==> assign(fields_view(*old(f)), key@, value_view(v)) == Some(fields_view(*final(f))),
        !ok ==> assign(fields_view(*old(f)), key@, value_view(v)) is None,
{
    let ik = ip_key_chars();
    let dk = domain_key_chars();
    let uk = using_key_chars();
    let pk = ports_key_chars();
    let ck = description_key_chars();
    if crate::search::same_chars(key, &ik) {
        match v {
            Value::Str(s) => if f.ip.is_none() {
                f.ip = Some(s);
                true
            } else {
                false
            },
            _ => false,
        }
    } else if crate::search::same_chars(key, &dk) {
        match v {
            Value::Str(s) => if f.domain.is_none() {
                f.domain = Some(s);
                true
            } else {
                false
            },
            _ => false,
        }
    } else if crate::search::same_chars(key, &uk) {
        match v {
            Value::Flag(b) => if f.using.is_none() {
                f.using = Some(b);
                true
            } else {
                false
            },
            _ => false,
        }
    } else if crate::search::same_chars(key, &pk) {
        match v {
            Value::Ports(p) => if f.ports.is_none() {
                f.ports = Some(p);
                true
            } else {
                false
            },
            _ => false,
        }
    } else if crate::search::same_chars(key, &ck) {
        match v {
            Value::Str(s) => if f.description.is_none() {
                f.description = Some(s);
                true
            } else {
                false
            },
            _ => false,
        }
    } else {
        true
    }
}

/// A record file whose text does not describe an entry.
#[derive(Debug)]
pub struct DecodeError;

impl Entry {
    /// The entry that a record text describes: its lines `key = value` in any order,
    /// with blank lines, comments and any form of string; the address, the flag and
    /// the port list must be there, each field at most once.
    pub fn decode(text: &str) -> (r: Result<Entry, DecodeError>)
        ensures
            r matches Ok(x) ==> decode_spec(text@) == Some(x@),
            r is Err ==> decode_spec(text@) is None,
    {
        let t = chars_of(text);
        let mut f = FieldsRead { ip: None, domain: None, using: None, ports: None, description: None };
        let mut k: usize = 0;
        assert(t@.skip(0) =~= t@);
        loop
            invariant
                k <= t.len(),
                t@ == text@,
                table(text@, no_fields()) == table(t@.skip(k as int), fields_view(f)),
            decreases t.len() - k,
        {
            let b = skip_blank_at(&t, k);
            if b == t.len() {
                assert(t@.skip(b as int) =~= Seq::<char>::empty());
                assert(table(text@, no_fields()) == Some(fields_view(f)));
                return match (f.ip, f.using, f.ports) {
                    (Some(ip), Some(using), Some(open_ports)) => {
                        let domain = match f.domain {
                            Some(d) => Some(string_of(&d)),
                            None => None,
                        };
                        let description = match f.description {
                            Some(d) => Some(string_of(&d)),
                            None => None,
                        };
                        Ok(Entry { ip: string_of(&ip), domain, using, open_ports, description })
                    },
                    _ => Err(DecodeError),
                };
            }
            match key_value_at(&t, b) {
                Some((key, v, r)) => {
                    if r <= k {
                        return Err(DecodeError);
                    }
                    if !assign_exec(&mut f, &key, v) {
                        return Err(DecodeError);
                    }
                    k = r;
                },
                None => {
                    return Err(DecodeError);
                },
            }
        }
    }
}

/// A single-line literal string reads back up to its closing quote.
proof fn lemma_literal_single(s: Seq<char>, rest: Seq<char>)
    requires
        forall|i: int| 0 <= i < s.len() ==> literal_char(#[trigger] s[i]) && s[i] != '\n' && s[i] != '\'',
    ensures
        literal(s + seq!['\''] + rest, false) == Some((s, rest)),
    decreases s.len(),
{
    let w = s + seq!['\''] + rest;
    if s.len() == 0 {
        assert(w[0] == '\'');
        assert(w.skip(1) =~= rest);
    } else {
        assert(w[0] == s[0]);
        assert(w.skip(1) =~= s.skip(1) + seq!['\''] + rest);
        assert forall|i: int| 0 <= i < s.skip(1).len() implies literal_char(#[trigger] s.skip(1)[i])
            && s.skip(1)[i] != '\n' && s.skip(1)[i] != '\'' by {
            assert(s.skip(1)[i] == s[i + 1]);
        }
        lemma_literal_single(s.skip(1), rest);
        assert(seq![s[0]] + s.skip(1) =~= s);
    }
}

/// A multi-line literal string reads back up to its closing quotes.
proof fn lemma_literal_multi(s: Seq<char>, rest: Seq<char>)
    requires
        literal_ok(s),
    ensures
        literal(s + three('\'') + rest, true) == Some((s, rest)),
    decreases s.len(),
{
    let w = s + three('\'') + rest;
    if s.len() == 0 {
        assert(w.subrange(0, 3) =~= three('\''));
        assert(w.skip(3) =~= rest);
    } else {
        assert(w[0] == s[0]);
        assert(!starts(w, three('\''))) by {
            if starts(w, three('\'')) {
                assert(w.subrange(0, 3)[0] == w[0] && w.subrange(0, 3)[1] == w[1] && w.subrange(0, 3)[2] == w[2]);
                if s.len() >= 3 {
                    assert(w[1] == s[1] && w[2] == s[2]);
                } else if s.len() == 2 {
                    assert(w[1] == s[1]);
                    assert(s.last() == s[1]);
                } else {
                    assert(s.last() == s[0]);
                }
            }
        }
        let t = s.skip(1);
        assert(w.skip(1) =~= t + three('\'') + rest);
        assert(literal_ok(t)) by {
            assert forall|i: int| 0 <= i < t.len() implies literal_char(#[trigger] t[i]) by {
                assert(t[i] == s[i + 1]);
            }
            assert forall|i: int| 0 <= i && i + 2 < t.len() implies !(#[trigger] t[i] == '\'' && t[i + 1]
                == '\'' && t[i + 2] == '\'') by {
                assert(t[i] == s[i + 1] && t[i + 1] == s[i + 2] && t[i + 2] == s[i + 3]);
            }
            if t.len() > 0 {
                assert(t.last() == s.last());
            }
        }
        lemma_literal_multi(t, rest);
        assert(seq![s[0]] + t =~= s);
    }
}

/// Four hexadecimal digits `00XY` of a control character read back as its code.
proof fn lemma_control_escape(c: char, rest: Seq<char>)
    requires
        is_control(c),
    ensures
        code_escape(escape_char(c) + rest, 4) == Some(c) || !(escape_char(c).len() == 6),
{
    let e = escape_char(c);
    if e.len() == 6 {
        let w = e + rest;
        let code = c as u32;
        let (h, l) = ((code / 16) as nat, (code % 16) as nat);
        lemma_hex_char(h);
        lemma_hex_char(l);
        if !(c == '"' || c == '\\' || c == '\n' || c == '\r' || c == '\t' || c == '\x08' || c == '\x0C') {
            let d = w.subrange(2, 6);
            assert(d =~= seq!['0', '0', hex_char(h), hex_char(l)]);
            assert(d.drop_last() =~= seq!['0', '0', hex_char(h)]);
            assert(d.drop_last().drop_last() =~= seq!['0', '0']);
            assert(d.drop_last().drop_last().drop_last() =~= seq!['0']);
            assert(d.drop_last().drop_last().drop_last().drop_last() =~= Seq::<char>::empty());
            assert(hex_num(Seq::<char>::empty()) == Some(0nat));
            assert(hex_value('0') == Some(0nat));
            assert(seq!['0'].drop_last() =~= Seq::<char>::empty());
            assert(hex_num(seq!['0']) == Some(0nat));
            assert(seq!['0', '0'].drop_last() =~= seq!['0']);
            assert(hex_num(seq!['0', '0']) == Some(0nat));
            assert(seq!['0', '0', hex_char(h)].drop_last() =~= seq!['0', '0']);
            assert(hex_num(seq!['0', '0', hex_char(h)]) == Some(h));
            assert(hex_num(d) == Some((h * 16 + l) as nat));
            assert(code == h * 16 + l);
            assert(((code as u32) as char) as u32 == code);
            lemma_same_code((code as u32) as char, c);
        }
    }
}

/// A basic string reads back up to its closing quotes.
proof fn lemma_basic(s: Seq<char>, rest: Seq<char>, multi: bool)
    requires
        multi ==> starts(rest, three('"')),
        !multi ==> rest.len() > 0 && rest[0] == '"',
    ensures
        basic((if multi { escape_ml(s) } else { escape(s) }) + rest, multi) == Some((s, if multi { rest.skip(3) } else { rest.skip(1) })),
    decreases s.len(),
{
    let es = if multi { escape_ml(s) } else { escape(s) };
    let w = es + rest;
    if s.len() == 0 {
        assert(es =~= Seq::<char>::empty());
        assert(w =~= rest);
        if multi {
            assert(starts(w, three('"')));
        }
    } else {
        let c = s[0];
        let e = if multi { escape_char_ml(c) } else { escape_char(c) };
        let t = s.skip(1);
        let et = if multi { escape_ml(t) } else { escape(t) };
        assert(es == e + et);
        lemma_basic(t, rest, multi);
        assert(w.skip(e.len() as int) =~= et + rest);
        assert(e.len() > 0);
        assert(w[0] == e[0]);
        assert(e[0] != '"');
        assert(!starts(w, three('"'))) by {
            if starts(w, three('"')) {
                assert(w.subrange(0, 3)[0] == w[0]);
            }
        }
        if multi && c == '\n' {
            assert(e =~= seq!['\n']);
        } else if c == '"' || c == '\\' || c == '\n' || c == '\r' || c == '\t' || c == '\x08' || c == '\x0C' {
            assert(e.len() == 2);
            assert(w[1] == e[1]);
            assert(short_escape(w[1]) == Some(c));
        } else if is_control(c) {
            assert(e == escape_char(c));
            assert(w[1] == e[1]);
            assert(short_escape(w[1]) is None);
            lemma_control_escape(c, et + rest);
            assert(escape_char(c) + (et + rest) =~= w);
        } else {
            assert(e =~= seq![c]);
        }
        assert(seq![c] + t =~= s);
    }
}

/// A text that does not start with `c` does not start with three of it.
proof fn lemma_not_three(w: Seq<char>, c: char)
    requires
        w.len() > 0,
        w[0] != c,
    ensures
        !starts(w, three(c)),
{
    if starts(w, three(c)) {
        assert(w.subrange(0, 3)[0] == w[0]);
    }
}

/// A string written between triple single quotes reads back.
proof fn lemma_value_literal_multi(s: Seq<char>, rest: Seq<char>)
    requires
        rest.len() > 0 && rest[0] == '\n',
        literal_ok(s),
        has_char(s, '\n') || has_char(s, '\''),
    ensures
        value(quote(s) + rest) == Some((Val::Str(s), rest)),
{
    let w = quote(s) + rest;
    if has_char(s, '\n') {
        assert(w =~= three('\'') + (seq!['\n'] + (s + three('\'') + rest)));
        assert(w.subrange(0, 3) =~= three('\''));
        lemma_not_three(w, '"');
        assert(w.skip(3) =~= seq!['\n'] + (s + three('\'') + rest));
        assert(trim_break(w.skip(3)) =~= s + three('\'') + rest);
    } else {
        assert(w =~= three('\'') + (s + three('\'') + rest));
        assert(w.subrange(0, 3) =~= three('\''));
        lemma_not_three(w, '"');
        assert(w.skip(3) =~= s + three('\'') + rest);
        assert(s.len() > 0);
        assert(s[0] != '\n' && s[0] != '\r') by {
            assert(literal_char(s[0]));
            if s[0] == '\n' {
                assert(has_char(s, '\n'));
            }
        }
        assert(trim_break(w.skip(3)) == w.skip(3));
    }
    lemma_literal_multi(s, rest);
}

/// A string written between single quotes reads back.
proof fn lemma_value_literal_single(s: Seq<char>, rest: Seq<char>)
    requires
        rest.len() > 0 && rest[0] == '\n',
        literal_ok(s),
        !has_char(s, '\n') && !has_char(s, '\''),
    ensures
        value(quote(s) + rest) == Some((Val::Str(s), rest)),
{
    let w = quote(s) + rest;
    assert(w =~= seq!['\''] + (s + seq!['\''] + rest));
    assert(w[0] == '\'');
    lemma_not_three(w, '"');
    assert(!starts(w, three('\''))) by {
        if starts(w, three('\'')) {
            assert(w.subrange(0, 3)[1] == w[1]);
            if s.len() > 0 {
                assert(w[1] == s[0]);
                assert(has_char(s, '\''));
            } else {
                assert(w[1] == '\'');
                assert(w[2] == rest[0]);
                assert(w.subrange(0, 3)[2] == w[2]);
            }
        }
    }
    assert(w.skip(1) =~= s + seq!['\''] + rest);
    assert forall|i: int| 0 <= i < s.len() implies literal_char(#[trigger] s[i]) && s[i] != '\n' && s[i] != '\'' by {
        if s[i] == '\n' {
            assert(has_char(s, '\n'));
        }
        if s[i] == '\'' {
            assert(has_char(s, '\''));
        }
    }
    lemma_literal_single(s, rest);
}

/// A string written between triple double quotes reads back.
proof fn lemma_value_basic_multi(s: Seq<char>, rest: Seq<char>)
    requires
        rest.len() > 0 && rest[0] == '\n',
        !literal_ok(s),
        has_char(s, '\n'),
    ensures
        value(quote(s) + rest) == Some((Val::Str(s), rest)),
{
    let w = quote(s) + rest;
    assert(w =~= three('"') + (seq!['\n'] + (escape_ml(s) + (three('"') + rest))));
    assert(w.subrange(0, 3) =~= three('"'));
    assert(w.skip(3) =~= seq!['\n'] + (escape_ml(s) + (three('"') + rest)));
    assert(trim_break(w.skip(3)) =~= escape_ml(s) + (three('"') + rest));
    assert((three('"') + rest).subrange(0, 3) =~= three('"'));
    lemma_basic(s, three('"') + rest, true);
    assert((three('"') + rest).skip(3) =~= rest);
}

/// A string written between double quotes reads back.
proof fn lemma_value_basic_single(s: Seq<char>, rest: Seq<char>)
    requires
        rest.len() > 0 && rest[0] == '\n',
        !literal_ok(s),
        !has_char(s, '\n'),
    ensures
        value(quote(s) + rest) == Some((Val::Str(s), rest)),
{
    let w = quote(s) + rest;
    assert(w =~= seq!['"'] + (escape(s) + (seq!['"'] + rest)));
    assert(w[0] == '"');
    assert(!starts(w, three('"'))) by {
        if starts(w, three('"')) {
            assert(w.subrange(0, 3)[1] == w[1]);
            if s.len() > 0 {
                assert(escape(s) == escape_char(s[0]) + escape(s.skip(1)));
                assert(w[1] == escape_char(s[0])[0]);
            } else {
                assert(escape(s) =~= Seq::<char>::empty());
                assert(w[2] == rest[0]);
                assert(w.subrange(0, 3)[2] == w[2]);
            }
        }
    }
    assert(w.skip(1) =~= escape(s) + (seq!['"'] + rest));
    lemma_basic(s, seq!['"'] + rest, false);
    assert((seq!['"'] + rest).skip(1) =~= rest);
}

/// A quoted string reads back as the string, whatever follows its line.
proof fn lemma_value_str(s: Seq<char>, rest: Seq<char>)
    requires
        rest.len() > 0 && rest[0] == '\n',
    ensures
        value(quote(s) + rest) == Some((Val::Str(s), rest)),
        quote(s).len() > 0 && !is_blank(quote(s)[0]),
{
    if literal_ok(s) {
        if has_char(s, '\n') || has_char(s, '\'') {
            lemma_value_literal_multi(s, rest);
        } else {
            lemma_value_literal_single(s, rest);
        }
    } else if has_char(s, '\n') {
        lemma_value_basic_multi(s, rest);
    } else {
        lemma_value_basic_single(s, rest);
    }
}

/// A run of digits reads as the digits when no digit follows.
proof fn lemma_digit_run(d: Seq<char>, r: Seq<char>)
    requires
        all_digits(d),
        !(r.len() > 0 && is_digit(r[0])),
    ensures
        digit_run(d + r) == (d, r),
    decreases d.len(),
{
    if d.len() == 0 {
        assert(d + r =~= r);
    } else {
        assert((d + r)[0] == d[0]);
        assert((d + r).skip(1) =~= d.skip(1) + r);
        assert(all_digits(d.skip(1))) by {
            assert forall|i: int| 0 <= i < d.skip(1).len() implies is_digit(#[trigger] d.skip(1)[i]) by {
                assert(d.skip(1)[i] == d[i + 1]);
            }
        }
        lemma_digit_run(d.skip(1), r);
        assert(seq![d[0]] + d.skip(1) =~= d);
    }
}

/// A run of key characters reads as the key when no key character follows.
proof fn lemma_key_run(k: Seq<char>, r: Seq<char>)
    requires
        forall|i: int| 0 <= i < k.len() ==> key_char(#[trigger] k[i]),
        !(r.len() > 0 && key_char(r[0])),
    ensures
        key_run(k + r) == (k, r),
    decreases k.len(),
{
    if k.len() == 0 {
        assert(k + r =~= r);
    } else {
        assert((k + r)[0] == k[0]);
        assert((k + r).skip(1) =~= k.skip(1) + r);
        assert forall|i: int| 0 <= i < k.skip(1).len() implies key_char(#[trigger] k.skip(1)[i]) by {
            assert(k.skip(1)[i] == k[i + 1]);
        }
        lemma_key_run(k.skip(1), r);
        assert(seq![k[0]] + k.skip(1) =~= k);
    }
}

/// A port reads back from its decimal form.
proof fn lemma_port_value(n: u32, r: Seq<char>)
    requires
        !(r.len() > 0 && is_digit(r[0])),
    ensures
        port_value(decimal_spec(n as nat) + r) == Some((n, r)),
{
    let d = decimal_spec(n as nat);
    lemma_decimal_digits(n as nat);
    assert((d + r)[0] == d[0]);
    assert(is_digit(d[0]));
    lemma_digit_run(d, r);
}

/// Blank space before `y` is skipped.
proof fn lemma_skip_blank_prefix(x: Seq<char>, y: Seq<char>)
    requires
        forall|i: int| 0 <= i < x.len() ==> (#[trigger] x[i] == ' ' || x[i] == '\n'),
    ensures
        skip_blank(x + y, false) == skip_blank(y, false),
    decreases x.len(),
{
    if x.len() > 0 {
        assert((x + y)[0] == x[0]);
        assert((x + y).skip(1) =~= x.skip(1) + y);
        assert forall|i: int| 0 <= i < x.skip(1).len() implies (#[trigger] x.skip(1)[i] == ' ' || x.skip(1)[i] == '\n') by {
            assert(x.skip(1)[i] == x[i + 1]);
        }
        lemma_skip_blank_prefix(x.skip(1), y);
    } else {
        assert(x + y =~= y);
    }
}

/// The items of a port list read back, up to the closing bracket.
proof fn lemma_port_items(p: Seq<u32>, acc: Seq<u32>, rest: Seq<char>)
    ensures
        port_array(port_items(p) + seq!['\n', ']'] + rest, acc) == Some((acc + p, rest)),
    decreases p.len(),
{
    let w = port_items(p) + seq!['\n', ']'] + rest;
    if p.len() == 0 {
        assert(w =~= seq!['\n'] + (seq![']'] + rest));
        lemma_skip_blank_prefix(seq!['\n'], seq![']'] + rest);
        assert(acc + p =~= acc);
        assert((seq![']'] + rest).skip(1) =~= rest);
    } else {
        let n = p[0];
        let d = decimal_spec(n as nat);
        let tail = port_items(p.skip(1)) + seq!['\n', ']'] + rest;
        assert(w =~= seq!['\n', ' ', ' ', ' ', ' '] + (d + (seq![','] + tail)));
        lemma_skip_blank_prefix(seq!['\n', ' ', ' ', ' ', ' '], d + (seq![','] + tail));
        lemma_decimal_digits(n as nat);
        assert((d + (seq![','] + tail))[0] == d[0]);
        assert(is_digit(d[0]));
        lemma_port_value(n, seq![','] + tail);
        assert((seq![','] + tail).skip(1) =~= tail);
        assert(w.len() > tail.len());
        lemma_port_items(p.skip(1), acc.push(n), rest);
        assert(acc.push(n) + p.skip(1) =~= acc + p);
    }
}

/// A port list reads back.
proof fn lemma_value_ports(p: Seq<u32>, rest: Seq<char>)
    requires
        rest.len() > 0 && rest[0] == '\n',
    ensures
        value(ports_text(p) + rest) == Some((Val::Ports(p), rest)),
{
    let w = ports_text(p) + rest;
    assert(w[0] == '[');
    assert(!starts(w, three('"'))) by { if starts(w, three('"')) { assert(w.subrange(0, 3)[0] == w[0]); } }
    assert(!starts(w, three('\''))) by { if starts(w, three('\'')) { assert(w.subrange(0, 3)[0] == w[0]); } }
    assert(!starts(w, flag_text(true))) by { if starts(w, flag_text(true)) { assert(w.subrange(0, 4)[0] == w[0]); } }
    assert(!starts(w, flag_text(false))) by { if starts(w, flag_text(false)) { assert(w.subrange(0, 5)[0] == w[0]); } }
    let s = w.skip(1);
    if p.len() == 0 {
        assert(s =~= seq![']'] + rest);
        assert(skip_blank(s, false) == s);
        assert(s.skip(1) =~= rest);
        assert(p =~= Seq::<u32>::empty());
    } else if p.len() == 1 {
        let d = decimal_spec(p[0] as nat);
        lemma_decimal_digits(p[0] as nat);
        assert(s =~= d + (seq![']'] + rest));
        assert(s[0] == d[0] && is_digit(d[0]));
        assert(skip_blank(s, false) == s);
        lemma_port_value(p[0], seq![']'] + rest);
        assert(skip_blank(seq![']'] + rest, false) == seq![']'] + rest);
        assert((seq![']'] + rest).skip(1) =~= rest);
        assert(Seq::<u32>::empty().push(p[0]) =~= p);
    } else {
        assert(s =~= port_items(p) + seq!['\n', ']'] + rest);
        lemma_port_items(p, Seq::empty(), rest);
        assert(Seq::<u32>::empty() + p =~= p);
    }
}

/// A flag reads back.
proof fn lemma_value_flag(b: bool, rest: Seq<char>)
    requires
        rest.len() > 0 && rest[0] == '\n',
    ensures
        value(flag_text(b) + rest) == Some((Val::Flag(b), rest)),
{
    let w = flag_text(b) + rest;
    assert(!starts(w, three('"'))) by { if starts(w, three('"')) { assert(w.subrange(0, 3)[0] == w[0]); } }
    assert(!starts(w, three('\''))) by { if starts(w, three('\'')) { assert(w.subrange(0, 3)[0] == w[0]); } }
    if b {
        assert(w.subrange(0, 4) =~= flag_text(true));
        assert(w.skip(4) =~= rest);
    } else {
        assert(!starts(w, flag_text(true))) by { if starts(w, flag_text(true)) { assert(w.subrange(0, 4)[0] == w[0]); } }
        assert(w.subrange(0, 5) =~= flag_text(false));
        assert(w.skip(5) =~= rest);
    }
}

/// A line `key = value` reads back, and the table goes on after it.
proof fn lemma_table_kv(key: Seq<char>, vt: Seq<char>, v: Val, rest: Seq<char>, f: Fields)
    requires
        key.len() > 0,
        forall|i: int| 0 <= i < key.len() ==> key_char(#[trigger] key[i]),
        vt.len() > 0 && !is_blank(vt[0]),
        value(vt + (seq!['\n'] + rest)) == Some((v, seq!['\n'] + rest)),
        assign(f, key, v) is Some,
    ensures
        table(kv(key, vt) + rest, f) == table(rest, assign(f, key, v)->0),
{
    let w = kv(key, vt) + rest;
    assert(w =~= key + (seq![' ', '=', ' '] + vt + seq!['\n'] + rest));
    assert(w[0] == key[0]);
    assert(skip_blank(w, false) == w);
    lemma_key_run(key, seq![' ', '=', ' '] + vt + seq!['\n'] + rest);
    let r = seq![' ', '=', ' '] + vt + seq!['\n'] + rest;
    assert(r.skip(1) =~= seq!['=', ' '] + vt + seq!['\n'] + rest);
    assert(r[0] == ' ' && r.skip(1)[0] == '=');
    assert(skip_ws(r.skip(1)) == r.skip(1));
    assert(skip_ws(r) == r.skip(1));
    let r1 = r.skip(1);
    assert(r1.skip(1) =~= seq![' '] + (vt + (seq!['\n'] + rest)));
    assert((seq![' '] + (vt + (seq!['\n'] + rest))).skip(1) =~= vt + (seq!['\n'] + rest));
    assert((vt + (seq!['\n'] + rest))[0] == vt[0]);
    assert(skip_ws(vt + (seq!['\n'] + rest)) == vt + (seq!['\n'] + rest));
    assert(skip_ws(r1.skip(1)) == vt + (seq!['\n'] + rest));
    assert(skip_ws(seq!['\n'] + rest) == seq!['\n'] + rest);
    assert((seq!['\n'] + rest).skip(1) =~= rest);
    assert(key_value(w) == Some((key, v, rest)));
}

/// The lines of the optional fields and the rest, once the address is read.
pub open spec fn after_ip(e: EntryView) -> Seq<char> {
    optional_kv(domain_key(), e.domain) + (kv(using_key(), flag_text(e.using)) + (kv(
        ports_key(),
        ports_text(e.open_ports),
    ) + optional_kv(description_key(), e.description)))
}

/// The lines from the flag on.
pub open spec fn after_domain(e: EntryView) -> Seq<char> {
    kv(using_key(), flag_text(e.using)) + (kv(ports_key(), ports_text(e.open_ports)) + optional_kv(
        description_key(),
        e.description,
    ))
}

/// The fields that the record of `e` gives.
pub open spec fn fields_of(e: EntryView) -> Fields {
    Fields {
        ip: Some(e.ip),
        domain: e.domain,
        using: Some(e.using),
        ports: Some(e.open_ports),
        description: e.description,
    }
}

/// Every key is a bare key.
proof fn lemma_keys()
    ensures
        forall|i: int| 0 <= i < ip_key().len() ==> key_char(#[trigger] ip_key()[i]),
        forall|i: int| 0 <= i < domain_key().len() ==> key_char(#[trigger] domain_key()[i]),
        forall|i: int| 0 <= i < using_key().len() ==> key_char(#[trigger] using_key()[i]),
        forall|i: int| 0 <= i < ports_key().len() ==> key_char(#[trigger] ports_key()[i]),
        forall|i: int| 0 <= i < description_key().len() ==> key_char(#[trigger] description_key()[i]),
{
}

/// The address line reads first.
#[verifier::rlimit(40)]
proof fn lemma_table_ip(e: EntryView)
    ensures
        table(encode_spec(e), no_fields()) == table(after_ip(e), Fields { ip: Some(e.ip), ..no_fields() }),
{
    lemma_keys();
    let r1 = after_ip(e);
    assert(encode_spec(e) =~= kv(ip_key(), quote(e.ip)) + r1);
    lemma_value_str(e.ip, seq!['\n'] + r1);
    lemma_table_kv(ip_key(), quote(e.ip), Val::Str(e.ip), r1, no_fields());
}

/// The domain line, where there is one, reads next.
#[verifier::rlimit(40)]
proof fn lemma_table_domain(e: EntryView)
    ensures
        table(after_ip(e), Fields { ip: Some(e.ip), ..no_fields() }) == table(after_domain(e), Fields { ip: Some(e.ip), domain: e.domain, ..no_fields() }),
{
    lemma_keys();
    let f1 = Fields { ip: Some(e.ip), ..no_fields() };
    let r1 = after_ip(e);
    let r2 = after_domain(e);
    match e.domain {
        Some(d) => {
            assert(r1 =~= kv(domain_key(), quote(d)) + r2);
            lemma_value_str(d, seq!['\n'] + r2);
            lemma_table_kv(domain_key(), quote(d), Val::Str(d), r2, f1);
        },
        None => {
            assert(r1 =~= r2);
            assert(Fields { ip: Some(e.ip), domain: e.domain, ..no_fields() } == f1);
        },
    }
}

/// The first lines read up to the flag.
proof fn lemma_table_head(e: EntryView)
    ensures
        table(encode_spec(e), no_fields()) == table(after_domain(e), Fields { ip: Some(e.ip), domain: e.domain, ..no_fields() }),
{
    lemma_table_ip(e);
    lemma_table_domain(e);
}

/// The remaining lines read to the end.
#[verifier::rlimit(60)]
proof fn lemma_table_tail(e: EntryView)
    ensures
        table(after_domain(e), Fields { ip: Some(e.ip), domain: e.domain, ..no_fields() }) == Some(fields_of(e)),
{
    lemma_keys();
    let nl = seq!['\n'];
    let f2 = Fields { ip: Some(e.ip), domain: e.domain, ..no_fields() };
    let cl = optional_kv(description_key(), e.description);
    let r3 = kv(ports_key(), ports_text(e.open_ports)) + cl;
    lemma_value_flag(e.using, nl + r3);
    lemma_table_kv(using_key(), flag_text(e.using), Val::Flag(e.using), r3, f2);
    let f3 = Fields { using: Some(e.using), ..f2 };
    lemma_value_ports(e.open_ports, nl + cl);
    assert(ports_text(e.open_ports)[0] == '[');
    lemma_table_kv(ports_key(), ports_text(e.open_ports), Val::Ports(e.open_ports), cl, f3);
    let f4 = Fields { ports: Some(e.open_ports), ..f3 };
    match e.description {
        Some(d) => {
            lemma_value_str(d, nl);
            assert(kv(description_key(), quote(d)) + Seq::<char>::empty() =~= cl);
            assert(nl + Seq::<char>::empty() =~= nl);
            lemma_table_kv(description_key(), quote(d), Val::Str(d), Seq::empty(), f4);
        },
        None => {},
    }
    assert(table(Seq::<char>::empty(), fields_of(e)) == Some(fields_of(e)));
}

/// Reading the record text of an entry gives the entry.
pub proof fn lemma_decode_encode(e: EntryView)
    ensures
        decode_spec(encode_spec(e)) == Some(e),
{
    lemma_table_head(e);
    lemma_table_tail(e);
}

/// The text of a record determines the entry: two entries written the same are the
/// same entry.
pub proof fn lemma_round_trip(a: EntryView, b: EntryView)
    requires
        encode_spec(a) == encode_spec(b),
    ensures
        a == b,
{
    lemma_decode_encode(a);
    lemma_decode_encode(b);
}

} // verus!
