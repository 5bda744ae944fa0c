//! Free-text search over entries: whitespace-separated tokens, each matched
//! against several fields of an entry.

use vstd::prelude::*;
use crate::entry::{Entry, EntryView, views};
use crate::text::chars_of;
use crate::number::{parse_u32_spec, parse_u32};

verus! {

/// The characters that separate the tokens of a query: those of Unicode's
/// White_Space property, as `char::is_whitespace` holds them.
pub open spec fn is_space(c: char) -> bool {
    let u = c as u32;
    (0x09 <= u && u <= 0x0D) || u == 0x20 || u == 0x85 || u == 0xA0 || u == 0x1680 || (0x2000
        <= u && u <= 0x200A) || u == 0x2028 || u == 0x2029 || u == 0x202F || u == 0x205F || u
        == 0x3000
}

/// Whether `c` separates the tokens of a query.
pub fn is_space_char(c: char) -> (r: bool)
    ensures
        r == is_space(c),
{
    let u = c as u32;
    (0x09 <= u && u <= 0x0D) || u == 0x20 || u == 0x85 || u == 0xA0 || u == 0x1680 || (0x2000
        <= u && u <= 0x200A) || u == 0x2028 || u == 0x2029 || u == 0x202F || u == 0x205F || u
        == 0x3000
}

/// `q[a..b]` is a token of `q`: a maximal run of characters that are not spaces.
pub open spec fn token_span(q: Seq<char>, a: int, b: int) -> bool {
    &&& 0 <= a < b <= q.len()
    &&& forall|k: int| a <= k < b ==> !is_space(#[trigger] q[k])
    &&& (a == 0 || is_space(q[a - 1]))
    &&& (b == q.len() || is_space(q[b]))
}

/// `t` occurs in `s` as a contiguous part.
pub open spec fn contains_part(s: Seq<char>, t: Seq<char>) -> bool {
    exists|i: int| 0 <= i && i + t.len() <= s.len() && #[trigger] s.subrange(i, i + t.len()) == t
}

/// The token that selects the entries in use.
pub open spec fn in_use_marker() -> Seq<char> {
    seq!['\u{C0AC}', '\u{C6A9}', '\u{C911}']
}

/// The token that selects the entries not in use.
pub open spec fn not_in_use_marker() -> Seq<char> {
    seq!['\u{BBF8}', '\u{C0AC}', '\u{C6A9}']
}

/// `t` occurs in an optional field.
pub open spec fn field_contains(f: Option<Seq<char>>, t: Seq<char>) -> bool {
    match f {
        Some(s) => contains_part(s, t),
        None => false,
    }
}

/// One token matches an entry by any of its fields.
pub open spec fn token_matches(t: Seq<char>, e: EntryView) -> bool {
    ||| contains_part(e.ip, t)
    ||| field_contains(e.domain, t)
    ||| (e.using && t == in_use_marker())
    ||| (!e.using && t == not_in_use_marker())
    ||| (parse_u32_spec(t) matches Some(n) && e.open_ports.contains(n))
    ||| field_contains(e.description, t)
}

/// Some token of the query matches the entry.
pub open spec fn query_matches(q: Seq<char>, e: EntryView) -> bool {
    exists|a: int, b: int| token_span(q, a, b) && token_matches(#[trigger] q.subrange(a, b), e)
}

/// `t` is a token of `q`.
pub open spec fn is_token(q: Seq<char>, t: Seq<char>) -> bool {
    exists|a: int, b: int| token_span(q, a, b) && q.subrange(a, b) == t
}

/// `t` is one of the character vectors in `r`.
pub open spec fn listed(r: Seq<Vec<char>>, t: Seq<char>) -> bool {
    exists|k: int| 0 <= k < r.len() && r[k]@ == t
}

/// What is listed stays listed after a push, and the pushed vector is listed.
proof fn lemma_listed_push(r: Seq<Vec<char>>, x: Vec<char>, t: Seq<char>)
    requires
        listed(r, t) || x@ == t,
    ensures
        listed(r.push(x), t),
{
    if x@ == t {
        assert(r.push(x)[r.len() as int]@ == t);
    } else {
        let k = choose|k: int| 0 <= k < r.len() && r[k]@ == t;
        assert(r.push(x)[k]@ == t);
    }
}

/// A token that ends at `b` starts where the current run started.
proof fn lemma_run_start(q: Seq<char>, start: int, a: int, b: int)
    requires
        token_span(q, a, b),
        0 <= start <= b,
        forall|k: int| start <= k < b ==> !is_space(#[trigger] q[k]),
        start == 0 || is_space(q[start - 1]),
    ensures
        a == start,
{
    if a < start {
        assert(!is_space(q[start - 1]));
    } else if a > start {
        assert(!is_space(q[a - 1]));
    }
}

/// The tokens of `q`, in order.
pub fn query_tokens(q: &Vec<char>) -> (r: Vec<Vec<char>>)
    ensures
        forall|k: int| 0 <= k < r.len() ==> is_token(q@, #[trigger] r[k]@),
        forall|a: int, b: int| #[trigger] token_span(q@, a, b) ==> listed(r@, q@.subrange(a, b)),
{
    let mut r: Vec<Vec<char>> = Vec::new();
    let mut cur: Vec<char> = Vec::new();
    let mut start: usize = 0;
    let mut i: usize = 0;
    while i < q.len()
        invariant
            i <= q.len(),
            start <= i,
            cur@ == q@.subrange(start as int, i as int),
            forall|k: int| start <= k < i ==> !is_space(#[trigger] q@[k]),
            start == 0 || is_space(q@[start - 1]),
            forall|k: int| 0 <= k < r.len() ==> is_token(q@, #[trigger] r[k]@),
            forall|a: int, b: int|
                #[trigger] token_span(q@, a, b) && b < i ==> listed(r@, q@.subrange(a, b)),
        decreases q.len() - i,
    {
        let c = q[i];
        if is_space_char(c) {
            let ghost old_r = r@;
            if cur.len() > 0 {
                assert(token_span(q@, start as int, i as int));
                assert(is_token(q@, cur@));
                r.push(cur);
            }
            assert forall|a: int, b: int|
                #[trigger] token_span(q@, a, b) && b < i + 1 implies listed(r@, q@.subrange(a, b)) by {
                if b == i {
                    lemma_run_start(q@, start as int, a, b);
                    lemma_listed_push(old_r, r[r.len() - 1], q@.subrange(a, b));
                } else if r@ != old_r {
                    lemma_listed_push(old_r, r[r.len() - 1], q@.subrange(a, b));
                }
            }
            cur = Vec::new();
            start = i + 1;
            assert(cur@ =~= q@.subrange(start as int, start as int));
        } else {
            cur.push(c);
            assert(cur@ =~= q@.subrange(start as int, i + 1));
        }
        i = i + 1;
    }
    let ghost old_r = r@;
    if cur.len() > 0 {
        assert(token_span(q@, start as int, i as int));
        assert(is_token(q@, cur@));
        r.push(cur);
    }
    assert forall|a: int, b: int| #[trigger] token_span(q@, a, b) implies listed(
        r@,
        q@.subrange(a, b),
    ) by {
        if b == q.len() {
            lemma_run_start(q@, start as int, a, b);
            lemma_listed_push(old_r, r[r.len() - 1], q@.subrange(a, b));
        } else if r@ != old_r {
            lemma_listed_push(old_r, r[r.len() - 1], q@.subrange(a, b));
        }
    }
    r
}

/// Whether `t` occurs in `s` starting at `i`.
pub fn occurs_at(s: &Vec<char>, i: usize, t: &Vec<char>) -> (r: bool)
    requires
        i + t.len() <= s.len(),
    ensures
        r == (s@.subrange(i as int, i + t.len()) == t@),
{
    let mut j: usize = 0;
    while j < t.len()
        invariant
            j <= t.len(),
            i + t.len() <= s.len(),
            s@.subrange(i as int, i + j) == t@.subrange(0, j as int),
        decreases t.len() - j,
    {
        if s[i + j] != t[j] {
            assert(s@.subrange(i as int, i + t.len())[j as int] != t@[j as int]);
            return false;
        }
        j = j + 1;
        assert(s@.subrange(i as int, i + j) =~= t@.subrange(0, j as int));
    }
    assert(s@.subrange(i as int, i + t.len()) =~= t@);
    true
}

/// Whether `t` occurs in `s` as a contiguous part.
pub fn contains_chars(s: &Vec<char>, t: &Vec<char>) -> (r: bool)
    ensures
        r == contains_part(s@, t@),
{
    if t.len() > s.len() {
        return false;
    }
    let last = s.len() - t.len();
    let mut i: usize = 0;
    loop
        invariant
            t.len() <= s.len(),
            last == s.len() - t.len(),
            i <= last,
            forall|j: int| 0 <= j < i ==> #[trigger] s@.subrange(j, j + t.len()) != t@,
        decreases last - i,
    {
        if occurs_at(s, i, t) {
            return true;
        }
        if i == last {
            return false;
        }
        i = i + 1;
    }
}

/// Whether `t` and `m` hold the same characters.
pub fn same_chars(t: &Vec<char>, m: &Vec<char>) -> (r: bool)
    ensures
        r == (t@ == m@),
{
    if t.len() != m.len() {
        return false;
    }
    let r = occurs_at(t, 0, m);
    assert(t@.subrange(0, m.len() as int) =~= t@);
    r
}

/// Whether `n` is one of `ports`.
pub fn port_listed(ports: &Vec<u32>, n: u32) -> (r: bool)
    ensures
        r == ports@.contains(n),
{
    let mut i: usize = 0;
    while i < ports.len()
        invariant
            i <= ports.len(),
            forall|j: int| 0 <= j < i ==> ports@[j] != n,
        decreases ports.len() - i,
    {
        if ports[i] == n {
            assert(ports@[i as int] == n);
            return true;
        }
        i = i + 1;
    }
    false
}

/// Whether `t` occurs in an optional field.
pub fn field_contains_chars(f: &Option<String>, t: &Vec<char>) -> (r: bool)
    ensures
        r == field_contains(crate::entry::opt_view(*f), t@),
{
    match f {
        Some(s) => {
            let cs = chars_of(s.as_str());
            contains_chars(&cs, t)
        },
        None => false,
    }
}

/// Whether one token matches an entry.
pub fn token_matches_entry(t: &Vec<char>, e: &Entry) -> (r: bool)
    ensures
        r == token_matches(t@, e@),
{
    let ip = chars_of(e.ip.as_str());
    if contains_chars(&ip, t) {
        return true;
    }
    if field_contains_chars(&e.domain, t) {
        return true;
    }
    let in_use = vec!['\u{C0AC}', '\u{C6A9}', '\u{C911}'];
    let not_in_use = vec!['\u{BBF8}', '\u{C0AC}', '\u{C6A9}'];
    assert(in_use@ == in_use_marker());
    assert(not_in_use@ == not_in_use_marker());
    if e.using && same_chars(t, &in_use) {
        return true;
    }
    if !e.using && same_chars(t, &not_in_use) {
        return true;
    }
    match parse_u32(t) {
        Some(n) => {
            if port_listed(&e.open_ports, n) {
                return true;
            }
        },
        None => {},
    }
    field_contains_chars(&e.description, t)
}

/// Whether some token of a query matches an entry; `tokens` are the query's tokens.
pub fn entry_matches(tokens: &Vec<Vec<char>>, e: &Entry, q: Ghost<Seq<char>>) -> (r: bool)
    requires
        forall|k: int| 0 <= k < tokens.len() ==> is_token(q@, #[trigger] tokens[k]@),
        forall|a: int, b: int| #[trigger] token_span(q@, a, b) ==> listed(tokens@, q@.subrange(a, b)),
    ensures
        r == query_matches(q@, e@),
{
    let mut k: usize = 0;
    while k < tokens.len()
        invariant
            k <= tokens.len(),
            forall|j: int| 0 <= j < k ==> !token_matches(#[trigger] tokens[j]@, e@),
            forall|j: int| 0 <= j < tokens.len() ==> is_token(q@, #[trigger] tokens[j]@),
        decreases tokens.len() - k,
    {
        if token_matches_entry(&tokens[k], e) {
            proof {
                assert(is_token(q@, tokens[k as int]@));
                let (a, b) = choose|a: int, b: int|
                    token_span(q@, a, b) && q@.subrange(a, b) == tokens[k as int]@;
                assert(token_span(q@, a, b) && token_matches(q@.subrange(a, b), e@));
            }
            return true;
        }
        k = k + 1;
    }
    assert forall|a: int, b: int| token_span(q@, a, b) implies !token_matches(
        #[trigger] q@.subrange(a, b),
        e@,
    ) by {
        assert(listed(tokens@, q@.subrange(a, b)));
        let j = choose|j: int| 0 <= j < tokens.len() && tokens@[j]@ == q@.subrange(a, b);
        assert(!token_matches(tokens[j]@, e@));
    }
    false
}

/// The entries that a query selects.
pub open spec fn selected(q: Seq<char>, s: Seq<EntryView>) -> Seq<EntryView> {
    s.filter(|v: EntryView| query_matches(q, v))
}

/// A search over a listing keeps exactly the matching entries, in the listing's
/// order: every entry it gives matches the query and comes from the listing, every
/// matching entry of the listing is given, and no more entries come out than went in.
pub proof fn lemma_search_filters(q: Seq<char>, s: Seq<EntryView>)
    ensures
        forall|i: int|
            0 <= i < selected(q, s).len() ==> query_matches(q, #[trigger] selected(q, s)[i])
                && s.contains(selected(q, s)[i]),
        forall|i: int| 0 <= i < s.len() && query_matches(q, s[i]) ==> #[trigger] selected(q, s).contains(s[i]),
        selected(q, s).len() <= s.len(),
{
    let p = |v: EntryView| query_matches(q, v);
    assert forall|i: int| 0 <= i < selected(q, s).len() implies query_matches(
        q,
        #[trigger] selected(q, s)[i],
    ) && s.contains(selected(q, s)[i]) by {
        s.lemma_filter_pred(p, i);
        assert(selected(q, s).contains(selected(q, s)[i]));
        s.lemma_filter_contains_rev(p, selected(q, s)[i]);
    }
    assert forall|i: int| 0 <= i < s.len() && query_matches(q, s[i]) implies #[trigger] selected(
        q,
        s,
    ).contains(s[i]) by {
        s.lemma_filter_contains(p, i);
    }
    s.lemma_filter_len(p);
}

/// `r` is `s` at the strictly increasing positions `idx`.
pub open spec fn picks(r: Seq<EntryView>, s: Seq<EntryView>, idx: Seq<int>) -> bool {
    &&& idx.len() == r.len()
    &&& forall|k: int| 0 <= k < idx.len() ==> 0 <= #[trigger] idx[k] < s.len() && r[k] == s[idx[k]]
    &&& forall|j: int, k: int| 0 <= j < k < idx.len() ==> #[trigger] idx[j] < #[trigger] idx[k]
}

proof fn lemma_filter_picks(s: Seq<EntryView>, p: spec_fn(EntryView) -> bool) -> (idx: Seq<int>)
    ensures
        picks(s.filter(p), s, idx),
    decreases s.len(),
{
    if s.len() == 0 {
        assert(s.filter(p) =~= Seq::<EntryView>::empty()) by {
            s.lemma_filter_len(p);
        }
        Seq::empty()
    } else {
        let t = s.drop_last();
        let x = s.last();
        let it = lemma_filter_picks(t, p);
        assert(s =~= t.push(x));
        t.lemma_filter_push(x, p);
        if p(x) {
            let idx = it.push(s.len() - 1);
            assert(picks(s.filter(p), s, idx)) by {
                assert forall|k: int| 0 <= k < idx.len() implies 0 <= #[trigger] idx[k] < s.len()
                    && s.filter(p)[k] == s[idx[k]] by {
                    if k < it.len() {
                        assert(idx[k] == it[k]);
                        assert(s.filter(p)[k] == t.filter(p)[k]);
                        assert(s[it[k]] == t[it[k]]);
                    }
                }
            }
            idx
        } else {
            assert forall|k: int| 0 <= k < it.len() implies 0 <= #[trigger] it[k] < s.len()
                && s.filter(p)[k] == s[it[k]] by {
                assert(s[it[k]] == t[it[k]]);
            }
            it
        }
    }
}

/// A search over a listing is a subsequence of it: the entries it gives stand in the
/// listing at strictly increasing positions, so the listing's order is kept and
/// nothing is repeated or invented.
pub proof fn lemma_search_subsequence(q: Seq<char>, s: Seq<EntryView>)
    ensures
        exists|idx: Seq<int>| picks(selected(q, s), s, idx),
{
    let idx = lemma_filter_picks(s, |v: EntryView| query_matches(q, v));
    assert(picks(selected(q, s), s, idx));
}

impl Entry {
    /// The entries that `query` matches, in their order in `entries`: an entry is
    /// kept when some token of the query matches one of its fields.
    pub fn search(query: &str, entries: Vec<Entry>) -> (r: Vec<Entry>)
        ensures
            views(r@) == selected(query@, views(entries@)),
    {
        let q = chars_of(query);
        let tokens = query_tokens(&q);
        let ghost all = entries@;
        assert(all.len() == entries.len());
        let mut rest = entries;
        let mut r: Vec<Entry> = Vec::new();
        let mut k: usize = 0;
        while rest.len() > 0
            invariant
                k + rest.len() == all.len(),
                all.len() <= usize::MAX,
                rest@ == all.skip(k as int),
                views(r@) == selected(query@, views(all.take(k as int))),
                q@ == query@,
                forall|j: int| 0 <= j < tokens.len() ==> is_token(q@, #[trigger] tokens[j]@),
                forall|a: int, b: int|
                    #[trigger] token_span(q@, a, b) ==> listed(tokens@, q@.subrange(a, b)),
            decreases rest.len(),
        {
            let e = rest.remove(0);
            assert(e == all[k as int]);
            let keep = entry_matches(&tokens, &e, Ghost(q@));
            proof {
                let before = views(all.take(k as int));
                assert(views(all.take(k + 1)) =~= before.push(e@));
                before.lemma_filter_push(e@, |v: EntryView| query_matches(query@, v));
            }
            let ghost old_r = r@;
            if keep {
                r.push(e);
                assert(views(r@) =~= views(old_r).push(e@));
            }
            k = k + 1;
            assert(rest@ =~= all.skip(k as int));
        }
        assert(all.take(k as int) =~= all);
        r
    }
}

} // verus!
