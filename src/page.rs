//! Fixed-size pages of a result list.

use vstd::prelude::*;
use crate::entry::{Entry, EntryView, views};

verus! {

/// The number of entries on a page.
pub const PAGE_SIZE: usize = 8;

/// The first position of page `index`, clipped to the list.
pub open spec fn page_start(len: int, index: int, size: int) -> int {
    if index * size < len { index * size } else { len }
}

/// The position after the last entry of page `index`, clipped to the list.
pub open spec fn page_end(len: int, index: int, size: int) -> int {
    if index * size + size < len { index * size + size } else { len }
}

/// The entries on page `index` of `s`.
pub open spec fn page_spec(s: Seq<EntryView>, index: int, size: int) -> Seq<EntryView> {
    s.subrange(page_start(s.len() as int, index, size), page_end(s.len() as int, index, size))
}

/// Whether entries follow page `index`.
pub open spec fn has_more_spec(len: int, index: int, size: int) -> bool {
    len > (index + 1) * size
}

/// Page `page` (from zero) of `entries`, with `page_size` entries a page, and whether
/// more entries follow it.
pub fn paginate(entries: &Vec<Entry>, page: usize, page_size: usize) -> (r: (Vec<Entry>, bool))
    ensures
        views(r.0@) == page_spec(views(entries@), page as int, page_size as int),
        r.1 == has_more_spec(entries.len() as int, page as int, page_size as int),
{
    let len = entries.len();
    let ghost s = views(entries@);
    let mut out: Vec<Entry> = Vec::new();
    if page_size == 0 {
        assert(views(out@) =~= page_spec(s, page as int, 0));
        return (out, len > 0);
    }
    if page > len / page_size {
        assert(page as int * page_size as int > len) by (nonlinear_arith)
            requires
                page > len / page_size,
                page_size > 0,
        ;
        assert((page as int + 1) * page_size as int > len) by (nonlinear_arith)
            requires
                page as int * page_size as int > len,
                page_size > 0,
        ;
        assert(views(out@) =~= page_spec(s, page as int, page_size as int));
        return (out, false);
    }
    assert(page as int * page_size as int <= len) by (nonlinear_arith)
        requires
            page <= len / page_size,
            page_size > 0,
    ;
    let start: usize = page * page_size;
    let more = len - start > page_size;
    let end: usize = if more { start + page_size } else { len };
    assert(start as int == page as int * page_size as int);
    assert((page as int + 1) * page_size as int == start + page_size) by (nonlinear_arith)
        requires
            start as int == page as int * page_size as int,
    ;
    let mut i: usize = start;
    while i < end
        invariant
            start <= i <= end,
            end <= len,
            len == entries.len(),
            s == views(entries@),
            views(out@) == s.subrange(start as int, i as int),
        decreases end - i,
    {
        let e = entries[i].duplicate();
        let ghost before = out@;
        out.push(e);
        assert(views(out@) =~= views(before).push(e@));
        i = i + 1;
        assert(s.subrange(start as int, i as int) =~= s.subrange(start as int, i - 1).push(
            entries@[i - 1]@,
        ));
    }
    (out, more)
}

} // verus!
