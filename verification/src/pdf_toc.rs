//! The PDF outline panel: a document's bookmarks flattened into indented
//! entries, and the page list shown when there are none.

use vstd::prelude::*;

use crate::pdf_link::{decimal, push_decimal_u64};
use crate::text::{chars_of, string_of};

verus! {

/// One line of the outline panel: its indent level, its text, and the
/// zero-based page it opens.
#[derive(Debug, Clone, PartialEq, Eq)]
pub struct TocEntry {
    pub level: u8,
    pub text: String,
    pub line: usize,
}

/// A bookmark of a PDF: its title, the page it points at (if it resolves to
/// one), and the bookmarks nested under it.
#[derive(Debug)]
pub struct PdfTocNode {
    pub title: String,
    pub page_index: Option<u16>,
    pub children: Vec<PdfTocNode>,
}

/// The mathematical content of an entry.
pub open spec fn entry_view(e: TocEntry) -> (u8, Seq<char>, usize) {
    (e.level, e.text@, e.line)
}

/// The entries, as values.
pub open spec fn entries_view(v: Seq<TocEntry>) -> Seq<(u8, Seq<char>, usize)> {
    v.map_values(|e: TocEntry| entry_view(e))
}

/// The level of the bookmarks nested one deeper, held to six.
pub open spec fn nested_level(level: u8) -> u8 {
    if level >= 6 {
        6
    } else {
        (level + 1) as u8
    }
}

/// Bookmarks flattened in reading order: each bookmark that points at a page
/// becomes an entry at `level`, followed by its children one level deeper.
pub open spec fn flattened(nodes: Seq<PdfTocNode>, level: u8) -> Seq<(u8, Seq<char>, usize)>
    decreases nodes,
{
    if nodes.len() == 0 {
        Seq::empty()
    } else {
        let n = nodes[0];
        let head = match n.page_index {
            Some(p) => seq![(level, n.title@, p as usize)],
            None => Seq::empty(),
        };
        head + flattened(n.children@, nested_level(level)) + flattened(nodes.drop_first(), level)
    }
}

/// Append the flattened bookmarks to `out`.
pub fn flatten_pdf_toc(entries: &Vec<PdfTocNode>, level: u8, out: &mut Vec<TocEntry>)
    requires
        level < 255,
    ensures
        entries_view(final(out)@) == entries_view(old(out)@) + flattened(entries@, level),
    decreases entries@,
{
    let ghost start = entries_view(out@);
    assert(entries@.skip(0) =~= entries@);
    let mut i: usize = 0;
    while i < entries.len()
        invariant
            level < 255,
            i <= entries@.len(),
            entries_view(out@) + flattened(entries@.skip(i as int), level) == start + flattened(
                entries@,
                level,
            ),
        decreases entries@.len() - i,
    {
        let entry = &entries[i];
        let ghost rest = entries@.skip(i as int);
        assert(rest[0] == *entry);
        assert(rest.drop_first() =~= entries@.skip(i + 1));
        let ghost before = entries_view(out@);
        match entry.page_index {
            Some(page_index) => {
                out.push(TocEntry { level, text: entry.title.clone(), line: page_index as usize });
                assert(entries_view(out@) =~= before.push((level, entry.title@, page_index as usize)));
            },
            None => {},
        }
        let next = if level >= 6 {
            6
        } else {
            level + 1
        };
        proof {
            assert(decreases_to!(entries@ => entry.children@));
        }
        let ghost middle = entries_view(out@);
        flatten_pdf_toc(&entry.children, next, out);
        proof {
            let head = match entry.page_index {
                Some(p) => seq![(level, entry.title@, p as usize)],
                None => Seq::<(u8, Seq<char>, usize)>::empty(),
            };
            assert(middle =~= before + head);
            assert(flattened(rest, level) == head + flattened(entry.children@, nested_level(level))
                + flattened(entries@.skip(i + 1), level));
            assert(entries_view(out@) + flattened(entries@.skip(i + 1), level) =~= before + flattened(
                rest,
                level,
            ));
        }
        i = i + 1;
    }
    assert(entries@.skip(i as int) =~= Seq::<PdfTocNode>::empty());
}

/// The entry for page `p` (zero-based) of a PDF without bookmarks.
pub open spec fn page_entry(p: nat) -> (u8, Seq<char>, usize) {
    (1u8, "Page "@ + decimal(p + 1), p as usize)
}

/// One entry per page, `Page 1` onwards, for a PDF without bookmarks.
pub fn page_toc_entries(pages: u16) -> (r: Vec<TocEntry>)
    ensures
        r@.len() == pages,
        forall|p: int| 0 <= p < pages ==> entry_view(#[trigger] r@[p]) == page_entry(p as nat),
{
    let mut out: Vec<TocEntry> = Vec::new();
    let mut p: u16 = 0;
    while p < pages
        invariant
            p <= pages,
            out@.len() == p,
            forall|q: int| 0 <= q < p ==> entry_view(#[trigger] out@[q]) == page_entry(q as nat),
        decreases pages - p,
    {
        let mut text = chars_of("Page ");
        push_decimal_u64(&mut text, p as u64 + 1);
        out.push(TocEntry { level: 1, text: string_of(&text), line: p as usize });
        p = p + 1;
    }
    out
}

/// The outline to show once a PDF's bookmarks arrive, given the outline
/// shown so far and the page count: the flattened bookmarks when there are
/// any that point at pages; the page list when the PDF has no bookmarks and
/// nothing is shown yet; otherwise what is shown now.
pub fn toc_after_bookmarks(
    current: Option<Vec<TocEntry>>,
    bookmarks: &Vec<PdfTocNode>,
    total_pages: u16,
) -> (r: Option<Vec<TocEntry>>)
    ensures
        bookmarks@.len() > 0 && flattened(bookmarks@, 1).len() > 0 ==> (r matches Some(v)
            && entries_view(v@) == flattened(bookmarks@, 1)),
        bookmarks@.len() > 0 && flattened(bookmarks@, 1).len() == 0 ==> r == current,
        bookmarks@.len() == 0 && (current matches Some(v) && v@.len() > 0) ==> r == current,
        bookmarks@.len() == 0 && !(current matches Some(v) && v@.len() > 0) ==> (r matches Some(w)
            && w@.len() == total_pages && forall|p: int|
            0 <= p < total_pages ==> entry_view(#[trigger] w@[p]) == page_entry(p as nat)),
{
    let mut mapped: Vec<TocEntry> = Vec::new();
    flatten_pdf_toc(bookmarks, 1, &mut mapped);
    assert(entries_view(mapped@) =~= flattened(bookmarks@, 1));
    if bookmarks.len() == 0 {
        match current {
            Some(v) => {
                if v.len() > 0 {
                    Some(v)
                } else {
                    Some(page_toc_entries(total_pages))
                }
            },
            None => Some(page_toc_entries(total_pages)),
        }
    } else if mapped.len() > 0 {
        Some(mapped)
    } else {
        current
    }
}

} // verus!
