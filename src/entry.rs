//! The inventory record of one IP address.

use vstd::prelude::*;

verus! {

/// One tracked IP address.
#[derive(Debug)]
pub struct Entry {
    pub ip: String,
    pub domain: Option<String>,
    pub using: bool,
    pub open_ports: Vec<u32>,
    pub description: Option<String>,
}

/// What an entry holds, as mathematical values.
pub struct EntryView {
    pub ip: Seq<char>,
    pub domain: Option<Seq<char>>,
    pub using: bool,
    pub open_ports: Seq<u32>,
    pub description: Option<Seq<char>>,
}

/// The characters of an optional string.
pub open spec fn opt_view(o: Option<String>) -> Option<Seq<char>> {
    match o {
        Some(s) => Some(s@),
        None => None,
    }
}

impl View for Entry {
    type V = EntryView;

    open spec fn view(&self) -> EntryView {
        EntryView {
            ip: self.ip@,
            domain: opt_view(self.domain),
            using: self.using,
            open_ports: self.open_ports@,
            description: opt_view(self.description),
        }
    }
}

/// The entries of a sequence, each by its view.
pub open spec fn views(s: Seq<Entry>) -> Seq<EntryView> {
    s.map_values(|e: Entry| e@)
}

/// The entry that creation gives an address: not in use, no ports, no domain, no description.
pub open spec fn fresh_spec(ip: Seq<char>) -> EntryView {
    EntryView { ip, domain: None, using: false, open_ports: Seq::empty(), description: None }
}

/// Copies an optional string.
pub fn copy_opt(o: &Option<String>) -> (r: Option<String>)
    ensures
        opt_view(r) == opt_view(*o),
{
    match o {
        Some(s) => Some(s.clone()),
        None => None,
    }
}

impl Entry {
    /// The entry that creation gives `ip`.
    pub fn fresh(ip: &str) -> (r: Entry)
        ensures
            r@ == fresh_spec(ip@),
    {
        Entry {
            ip: ip.to_owned(),
            domain: None,
            using: false,
            open_ports: Vec::new(),
            description: None,
        }
    }

    /// A copy of this entry.
    pub fn duplicate(&self) -> (r: Entry)
        ensures
            r@ == self@,
    {
        let ports = self.open_ports.clone();
        assert(ports@ =~= self.open_ports@);
        Entry {
            ip: self.ip.clone(),
            domain: copy_opt(&self.domain),
            using: self.using,
            open_ports: ports,
            description: copy_opt(&self.description),
        }
    }
}

} // verus!
