//! The entry store: one record file per address in a storage directory.
//!
//! The directory itself is read and written by the caller. These functions decide
//! what to write, under which file name, and what a read file holds; the
//! directory is modelled as a map from file names to file contents.

use vstd::prelude::*;
use crate::entry::{Entry, EntryView, fresh_spec, views};
use crate::codec::{encode_spec, decode_spec, lemma_decode_encode};
use crate::path::{record_file_name, record_file_name_spec};
use crate::search::port_listed;

verus! {

/// What an optional entry holds.
pub open spec fn opt_entry(o: Option<Entry>) -> Option<EntryView> {
    match o {
        Some(e) => Some(e@),
        None => None,
    }
}

/// What an optional string holds.
pub open spec fn opt_text(o: Option<String>) -> Option<Seq<char>> {
    match o {
        Some(s) => Some(s@),
        None => None,
    }
}

/// The entry that a record file gives: none where the file is missing or its text
/// is not a record.
pub open spec fn read_spec(content: Option<Seq<char>>) -> Option<EntryView> {
    match content {
        Some(c) => decode_spec(c),
        None => None,
    }
}

/// The storage directory after the record of `ip` is created: its file holds a
/// fresh entry, whatever it held before.
pub open spec fn dir_after_create(dir: Map<Seq<char>, Seq<char>>, ip: Seq<char>) -> Map<
    Seq<char>,
    Seq<char>,
> {
    dir.insert(record_file_name_spec(ip), encode_spec(fresh_spec(ip)))
}

/// The storage directory after the record of `e` is saved over its file.
pub open spec fn dir_after_save(dir: Map<Seq<char>, Seq<char>>, e: EntryView) -> Map<
    Seq<char>,
    Seq<char>,
> {
    if dir.contains_key(record_file_name_spec(e.ip)) {
        dir.insert(record_file_name_spec(e.ip), encode_spec(e))
    } else {
        dir
    }
}

/// The storage directory after the record of `ip` is deleted.
pub open spec fn dir_after_delete(dir: Map<Seq<char>, Seq<char>>, ip: Seq<char>) -> Map<
    Seq<char>,
    Seq<char>,
> {
    dir.remove(record_file_name_spec(ip))
}

/// What fetching `ip` from the storage directory gives.
pub open spec fn fetch_spec(dir: Map<Seq<char>, Seq<char>>, ip: Seq<char>) -> Option<EntryView> {
    let f = record_file_name_spec(ip);
    if dir.contains_key(f) {
        decode_spec(dir[f])
    } else {
        None
    }
}

/// A file to write: its name in the storage directory and its whole contents.
pub struct RecordWrite {
    pub file_name: String,
    pub contents: String,
}

/// After the record of `ip` is created, fetching `ip` gives the created entry.
pub proof fn lemma_create_then_fetch(dir: Map<Seq<char>, Seq<char>>, ip: Seq<char>)
    ensures
        fetch_spec(dir_after_create(dir, ip), ip) == Some(fresh_spec(ip)),
{
    lemma_decode_encode(fresh_spec(ip));
}

/// Creating the record of an address that already has one resets it: whatever was
/// stored, fetching then gives a fresh entry, and no other file changes.
pub proof fn lemma_create_resets(dir: Map<Seq<char>, Seq<char>>, ip: Seq<char>, f: Seq<char>)
    requires
        dir.contains_key(record_file_name_spec(ip)),
    ensures
        fetch_spec(dir_after_create(dir, ip), ip) == Some(fresh_spec(ip)),
        dir_after_create(dir, ip).dom() == dir.dom(),
        f != record_file_name_spec(ip) ==> dir_after_create(dir, ip).contains_key(f)
            == dir.contains_key(f) && (dir.contains_key(f) ==> dir_after_create(dir, ip)[f]
            == dir[f]),
{
    lemma_create_then_fetch(dir, ip);
    assert(dir_after_create(dir, ip).dom() =~= dir.dom());
}

/// After the record of `ip` is deleted, fetching `ip` gives nothing.
pub proof fn lemma_delete_then_fetch(dir: Map<Seq<char>, Seq<char>>, ip: Seq<char>)
    ensures
        fetch_spec(dir_after_delete(dir, ip), ip) is None,
{
}

/// After an entry whose record exists is saved, fetching its address gives it back.
pub proof fn lemma_save_then_fetch(dir: Map<Seq<char>, Seq<char>>, e: EntryView)
    requires
        dir.contains_key(record_file_name_spec(e.ip)),
    ensures
        fetch_spec(dir_after_save(dir, e), e.ip) == Some(e),
{
    lemma_decode_encode(e);
}

/// The entry of a record file, or a fresh one with the file to create for it where
/// the file is missing or its text is not a record.
pub fn fetch_or_create(ip: &str, content: Option<String>) -> (r: (Entry, Option<RecordWrite>))
    ensures
        read_spec(opt_text(content)) matches Some(x) ==> r.0@ == x && r.1 is None,
        read_spec(opt_text(content)) is None ==> r.0@ == fresh_spec(ip@) && (r.1 matches Some(
            w,
        ) && w.file_name@ == record_file_name_spec(ip@) && w.contents@ == encode_spec(
            fresh_spec(ip@),
        )),
{
    match Entry::from_ip(content) {
        Some(e) => (e, None),
        None => {
            let (e, w) = Entry::new(ip);
            (e, Some(w))
        },
    }
}

impl Entry {
    /// The entry created for `ip`: not in use, no ports, no domain and no
    /// description; and the file to write for it. An existing file of that name is
    /// overwritten.
    pub fn new(ip: &str) -> (r: (Entry, RecordWrite))
        ensures
            r.0@ == fresh_spec(ip@),
            r.1.file_name@ == record_file_name_spec(ip@),
            r.1.contents@ == encode_spec(fresh_spec(ip@)),
    {
        let e = Entry::fresh(ip);
        let w = RecordWrite { file_name: record_file_name(ip), contents: e.encode() };
        (e, w)
    }

    /// The entry that the record file of an address gives. `content` is what the
    /// file held, or `None` where it could not be read; a text that is not a record
    /// gives `None` too.
    pub fn from_ip(content: Option<String>) -> (r: Option<Entry>)
        ensures
            opt_entry(r) == read_spec(opt_text(content)),
    {
        match content {
            Some(c) => match Entry::decode(c.as_str()) {
                Ok(x) => {
                    proof {
                        lemma_decode_encode(x@);
                    }
                    Some(x)
                },
                Err(_) => None,
            },
            None => None,
        }
    }

    /// The entries of the read record files, in the order given; files whose text is
    /// not a record are left out.
    pub fn list(contents: Vec<String>) -> (r: Vec<Entry>)
        ensures
            views(r@) == contents@.map_values(|s: String| s@).filter_map(|t: Seq<char>| decode_spec(t)),
    {
        let ghost texts = contents@.map_values(|s: String| s@);
        let mut out: Vec<Entry> = Vec::new();
        let mut i: usize = 0;
        while i < contents.len()
            invariant
                i <= contents.len(),
                texts == contents@.map_values(|s: String| s@),
                views(out@) == texts.take(i as int).filter_map(|t: Seq<char>| decode_spec(t)),
            decreases contents.len() - i,
        {
            let got = Entry::from_ip(Some(contents[i].clone()));
            proof {
                texts.lemma_filter_map_take_succ(|t: Seq<char>| decode_spec(t), i as int);
            }
            match got {
                Some(e) => {
                    let ghost before = out@;
                    out.push(e);
                    assert(views(out@) =~= views(before).push(e@));
                },
                None => {},
            }
            i = i + 1;
        }
        assert(texts.take(contents.len() as int) =~= texts);
        out
    }

    /// The file to write to save this entry over its record.
    pub fn save(&self) -> (r: RecordWrite)
        ensures
            r.file_name@ == record_file_name_spec(self.ip@),
            r.contents@ == encode_spec(self@),
    {
        RecordWrite { file_name: record_file_name(self.ip.as_str()), contents: self.encode() }
    }

    /// The file to remove to delete this entry.
    pub fn delete(&self) -> (r: String)
        ensures
            r@ == record_file_name_spec(self.ip@),
    {
        record_file_name(self.ip.as_str())
    }
}

/// Whether an entry can be issued: not in use, and holding every required port.
pub open spec fn issuable(e: EntryView, required: Seq<u32>) -> bool {
    !e.using && forall|k: int| 0 <= k < required.len() ==> e.open_ports.contains(#[trigger] required[k])
}

/// Whether `e` holds every port of `required`.
fn holds_all(e: &Entry, required: &Vec<u32>) -> (r: bool)
    ensures
        r == forall|k: int| 0 <= k < required.len() ==> e.open_ports@.contains(#[trigger] required@[k]),
{
    let mut k: usize = 0;
    while k < required.len()
        invariant
            k <= required.len(),
            forall|j: int| 0 <= j < k ==> e.open_ports@.contains(#[trigger] required@[j]),
        decreases required.len() - k,
    {
        if !port_listed(&e.open_ports, required[k]) {
            return false;
        }
        k = k + 1;
    }
    true
}

/// The first entry, in the order given, that is not in use and holds every port of
/// `required`.
pub fn issue(required: &Vec<u32>, entries: &Vec<Entry>) -> (r: Option<Entry>)
    ensures
        r matches Some(x) ==> exists|i: int|
            0 <= i < entries.len() && x@ == entries@[i]@ && issuable(entries@[i]@, required@) && forall|
                j: int,
            | 0 <= j < i ==> !issuable(#[trigger] entries@[j]@, required@),
        r is None ==> forall|i: int|
            0 <= i < entries.len() ==> !issuable(#[trigger] entries@[i]@, required@),
{
    let mut i: usize = 0;
    while i < entries.len()
        invariant
            i <= entries.len(),
            forall|j: int| 0 <= j < i ==> !issuable(#[trigger] entries@[j]@, required@),
        decreases entries.len() - i,
    {
        let e = &entries[i];
        if !e.using && holds_all(e, required) {
            let x = e.duplicate();
            assert(issuable(entries@[i as int]@, required@));
            return Some(x);
        }
        i = i + 1;
    }
    None
}

} // verus!
