//! Mapping from an IP address to the name of its record file.

use vstd::prelude::*;
use crate::text::{chars_of, string_of, push_all};

verus! {

/// A character of the record id for a character of the address.
pub open spec fn id_char(c: char) -> char {
    if c == '.' { '-' } else { c }
}

/// The record id of an address: every `.` replaced by `-`.
pub open spec fn record_id_spec(ip: Seq<char>) -> Seq<char> {
    ip.map_values(|c: char| id_char(c))
}

/// The extension of every record file.
pub open spec fn record_extension() -> Seq<char> {
    seq!['.', 't', 'o', 'm', 'l']
}

/// The file name of the record of an address.
pub open spec fn record_file_name_spec(ip: Seq<char>) -> Seq<char> {
    record_id_spec(ip) + record_extension()
}

/// Whether an address string holds no `-`, as every dotted quad does.
pub open spec fn dash_free(ip: Seq<char>) -> bool {
    forall|i: int| 0 <= i < ip.len() ==> ip[i] != '-'
}

/// The record id of `ip`: the address with every `.` replaced by `-`.
pub fn record_id(ip: &str) -> (r: String)
    ensures
        r@ == record_id_spec(ip@),
{
    let cs = chars_of(ip);
    let mut out: Vec<char> = Vec::new();
    let mut i: usize = 0;
    while i < cs.len()
        invariant
            i <= cs.len(),
            cs@ == ip@,
            out@ == record_id_spec(cs@.subrange(0, i as int)),
        decreases cs.len() - i,
    {
        let c = cs[i];
        if c == '.' {
            out.push('-');
        } else {
            out.push(c);
        }
        i = i + 1;
        assert(record_id_spec(cs@.subrange(0, i as int)) =~= record_id_spec(
            cs@.subrange(0, i - 1),
        ).push(id_char(c)));
    }
    assert(cs@.subrange(0, cs.len() as int) == cs@);
    string_of(&out)
}

/// The file name of the record of `ip`: its record id followed by `.toml`.
pub fn record_file_name(ip: &str) -> (r: String)
    ensures
        r@ == record_file_name_spec(ip@),
{
    let id = record_id(ip);
    let mut out = chars_of(id.as_str());
    let ext = vec!['.', 't', 'o', 'm', 'l'];
    push_all(&mut out, &ext);
    assert(ext@ == record_extension());
    string_of(&out)
}

/// Two different addresses without `-` (every dotted quad) never share a record id.
pub proof fn lemma_record_id_injective(ip1: Seq<char>, ip2: Seq<char>)
    requires
        dash_free(ip1),
        dash_free(ip2),
        ip1 != ip2,
    ensures
        record_id_spec(ip1) != record_id_spec(ip2),
        record_file_name_spec(ip1) != record_file_name_spec(ip2),
{
    if ip1.len() == ip2.len() {
        assert(exists|i: int| 0 <= i < ip1.len() && ip1[i] != ip2[i]) by {
            if !(exists|i: int| 0 <= i < ip1.len() && ip1[i] != ip2[i]) {
                assert(ip1 =~= ip2);
            }
        };
        let i = choose|i: int| 0 <= i < ip1.len() && ip1[i] != ip2[i];
        assert(record_id_spec(ip1)[i] != record_id_spec(ip2)[i]);
    }
    let (a, b) = (record_file_name_spec(ip1), record_file_name_spec(ip2));
    if a == b {
        assert(a.len() == b.len());
        assert(record_id_spec(ip1) =~= a.subrange(0, ip1.len() as int));
        assert(record_id_spec(ip2) =~= b.subrange(0, ip2.len() as int));
    }
}

} // verus!
