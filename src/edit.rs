//! Field-by-field changes of an entry, as the interactive actions make them.

use vstd::prelude::*;
use crate::entry::{Entry, EntryView, opt_view};
use crate::number::{decimal, decimal_spec, parse_u32, parse_u32_spec};
use crate::text::chars_of;
use crate::search::same_chars;

verus! {

/// A port given in an edit that is not a `u32` in decimal.
#[derive(Debug)]
pub struct InvalidPort;

/// `i` is the first position of `ports` whose decimal form is `key`.
pub open spec fn first_port_at(ports: Seq<u32>, key: Seq<char>, i: int) -> bool {
    &&& 0 <= i < ports.len()
    &&& decimal_spec(ports[i] as nat) == key
    &&& forall|j: int| 0 <= j < i ==> decimal_spec(#[trigger] ports[j] as nat) != key
}

/// The values given in a dialog, the empty ones left out.
pub open spec fn given_values(vals: Seq<Option<String>>) -> Seq<Seq<char>> {
    vals.filter(|o: Option<String>| o is Some).map_values(|o: Option<String>| o->0@)
}

/// Whether every value reads as a port.
pub open spec fn all_ports(vals: Seq<Seq<char>>) -> bool {
    forall|k: int| 0 <= k < vals.len() ==> parse_u32_spec(#[trigger] vals[k]) is Some
}

/// The ports that the values read as.
pub open spec fn ports_of(vals: Seq<Seq<char>>) -> Seq<u32> {
    vals.map_values(|v: Seq<char>| parse_u32_spec(v)->0)
}

impl Entry {
    /// Marks the entry in use where it was not, and not in use where it was.
    pub fn toggle_using(&mut self)
        ensures
            final(self)@ == (EntryView { using: !old(self).using, ..old(self)@ }),
    {
        self.using = !self.using;
    }

    /// Sets the domain, or clears it with `None`.
    pub fn set_domain(&mut self, domain: Option<String>)
        ensures
            final(self)@ == (EntryView { domain: opt_view(domain), ..old(self)@ }),
    {
        self.domain = domain;
    }

    /// Sets the description, or clears it with `None`.
    pub fn set_description(&mut self, description: Option<String>)
        ensures
            final(self)@ == (EntryView { description: opt_view(description), ..old(self)@ }),
    {
        self.description = description;
    }

    /// The first position of a port whose decimal form is `key`.
    pub fn port_position(&self, key: &str) -> (r: Option<usize>)
        ensures
            r matches Some(i) ==> first_port_at(self.open_ports@, key@, i as int),
            r is None ==> forall|i: int|
                0 <= i < self.open_ports@.len() ==> decimal_spec(
                    #[trigger] self.open_ports@[i] as nat,
                ) != key@,
    {
        let k = chars_of(key);
        let mut i: usize = 0;
        while i < self.open_ports.len()
            invariant
                i <= self.open_ports.len(),
                k@ == key@,
                forall|j: int| 0 <= j < i ==> decimal_spec(#[trigger] self.open_ports@[j] as nat) != key@,
            decreases self.open_ports.len() - i,
        {
            let d = decimal(self.open_ports[i]);
            if same_chars(&d, &k) {
                return Some(i);
            }
            i = i + 1;
        }
        None
    }

    /// Changes the first port whose decimal form is `key` to the port that `value`
    /// reads as, or removes it where `value` is `None`. Nothing changes where no port
    /// is written `key`, or where `value` is not a port (then the result is an error).
    pub fn edit_port(&mut self, key: &str, value: Option<&str>) -> (r: Result<(), InvalidPort>)
        ensures
            (forall|i: int|
                0 <= i < old(self).open_ports@.len() ==> decimal_spec(
                    #[trigger] old(self).open_ports@[i] as nat,
                ) != key@) ==> r is Ok && final(self)@ == old(self)@,
            forall|i: int|
                #[trigger] first_port_at(old(self).open_ports@, key@, i) ==> match value {
                    None => r is Ok && final(self)@ == (EntryView {
                        open_ports: old(self).open_ports@.remove(i),
                        ..old(self)@
                    }),
                    Some(v) => match parse_u32_spec(v@) {
                        Some(n) => r is Ok && final(self)@ == (EntryView {
                            open_ports: old(self).open_ports@.update(i, n),
                            ..old(self)@
                        }),
                        None => r is Err && final(self)@ == old(self)@,
                    },
                },
    {
        let pos = self.port_position(key);
        match pos {
            None => Ok(()),
            Some(i) => {
                proof {
                    assert forall|j: int| #[trigger]
                        first_port_at(old(self).open_ports@, key@, j) implies j == i by {
                        if j < i {
                            assert(decimal_spec(self.open_ports@[j] as nat) != key@);
                        } else if j > i {
                            assert(decimal_spec(self.open_ports@[i as int] as nat) != key@);
                        }
                    }
                }
                match value {
                    None => {
                        self.open_ports.remove(i);
                        Ok(())
                    },
                    Some(v) => {
                        let vc = chars_of(v);
                        match parse_u32(&vc) {
                            Some(n) => {
                                self.open_ports.set(i, n);
                                Ok(())
                            },
                            None => Err(InvalidPort),
                        }
                    },
                }
            },
        }
    }

    /// Appends the ports that the given values read as, in order; empty values are
    /// left out. Where a value is not a port nothing changes and the result is an
    /// error.
    pub fn add_ports(&mut self, values: &Vec<Option<String>>) -> (r: Result<(), InvalidPort>)
        ensures
            all_ports(given_values(values@)) ==> r is Ok && final(self)@ == (EntryView {
                open_ports: old(self).open_ports@ + ports_of(given_values(values@)),
                ..old(self)@
            }),
            !all_ports(given_values(values@)) ==> r is Err && final(self)@ == old(self)@,
    {
        let ghost vals = values@;
        let mut parsed: Vec<u32> = Vec::new();
        let mut i: usize = 0;
        while i < values.len()
            invariant
                i <= values.len(),
                vals == values@,
                all_ports(given_values(vals.take(i as int))),
                parsed@ == ports_of(given_values(vals.take(i as int))),
            decreases values.len() - i,
        {
            let ghost before = vals.take(i as int);
            proof {
                assert(vals.take(i + 1) =~= before.push(vals[i as int]));
                before.lemma_filter_push(vals[i as int], |o: Option<String>| o is Some);
            }
            match &values[i] {
                Some(s) => {
                    let cs = chars_of(s.as_str());
                    let ghost g = given_values(vals.take(i + 1));
                    assert(g =~= given_values(before).push(s@));
                    match parse_u32(&cs) {
                        Some(n) => {
                            parsed.push(n);
                            assert(ports_of(g) =~= ports_of(given_values(before)).push(n));
                        },
                        None => {
                            assert(parse_u32_spec(g[g.len() - 1]) is None);
                            assert(!all_ports(given_values(vals))) by {
                                let all = vals.filter(|o: Option<String>| o is Some);
                                let part = vals.take(i + 1).filter(|o: Option<String>| o is Some);
                                assert(vals == vals.take(i + 1) + vals.skip(i + 1));
                                Seq::filter_distributes_over_add(
                                    vals.take(i + 1),
                                    vals.skip(i + 1),
                                    |o: Option<String>| o is Some,
                                );
                                assert(all[part.len() - 1] == part[part.len() - 1]);
                                let gv = given_values(vals);
                                assert(gv[part.len() - 1] == g[g.len() - 1]);
                            }
                            return Err(InvalidPort);
                        },
                    }
                },
                None => {
                    assert(given_values(vals.take(i + 1)) =~= given_values(before));
                },
            }
            i = i + 1;
        }
        assert(vals.take(values.len() as int) =~= vals);
        let ghost old_ports = self.open_ports@;
        let mut k: usize = 0;
        while k < parsed.len()
            invariant
                k <= parsed.len(),
                self.open_ports@ == old_ports + parsed@.subrange(0, k as int),
                self.ip == old(self).ip,
                self.domain == old(self).domain,
                self.using == old(self).using,
                self.description == old(self).description,
                old_ports == old(self).open_ports@,
            decreases parsed.len() - k,
        {
            self.open_ports.push(parsed[k]);
            k = k + 1;
            assert(self.open_ports@ =~= old_ports + parsed@.subrange(0, k as int));
        }
        assert(parsed@.subrange(0, parsed.len() as int) =~= parsed@);
        Ok(())
    }
}

} // verus!
