use vstd::prelude::*;

use crate::name::name_of;
use crate::tree::{ContentView, EntryView};
use crate::walk::{listing, records, Observed};

verus! {

/// The node at `pos` within `c`: each index picks a child, from the top.
pub open spec fn node_at(c: ContentView, pos: Seq<int>) -> Option<ContentView>
    decreases pos.len(),
{
    if pos.len() == 0 {
        Some(c)
    } else {
        match c {
            ContentView::Entries(entries) => if 0 <= pos[0] < entries.len() {
                node_at(entries[pos[0]].content, pos.drop_first())
            } else {
                None
            },
            ContentView::File(_) => None,
        }
    }
}

/// `c` with the node at `pos` replaced by `n`, every name kept.
pub open spec fn replace_at(c: ContentView, pos: Seq<int>, n: ContentView) -> ContentView
    decreases pos.len(),
{
    if pos.len() == 0 {
        n
    } else {
        match c {
            ContentView::Entries(entries) => if 0 <= pos[0] < entries.len() {
                ContentView::Entries(
                    entries.update(
                        pos[0],
                        EntryView {
                            name: entries[pos[0]].name,
                            content: replace_at(entries[pos[0]].content, pos.drop_first(), n),
                        },
                    ),
                )
            } else {
                c
            },
            ContentView::File(_) => c,
        }
    }
}

proof fn lemma_replace_at(c: ContentView, pos: Seq<int>, n: ContentView)
    requires
        node_at(c, pos) is Some,
    ensures
        node_at(replace_at(c, pos, n), pos) == Some(n),
    decreases pos.len(),
{
    if pos.len() > 0 {
        let entries = c->Entries_0;
        lemma_replace_at(entries[pos[0]].content, pos.drop_first(), n);
    }
}

proof fn lemma_records_unique(log: Map<Seq<int>, Observed>, pos: Seq<int>, a: ContentView, b: ContentView)
    requires
        records(log, pos, a),
        records(log, pos, b),
    ensures
        a == b,
    decreases a,
{
    match (a, b) {
        (ContentView::Entries(x), ContentView::Entries(y)) => {
            assert forall|i: int| 0 <= i < x.len() implies x[i] == y[i] by {
                assert(name_of(listing(log[pos])[i]) == Some(x[i].name));
                assert(name_of(listing(log[pos])[i]) == Some(y[i].name));
                lemma_records_unique(log, pos.push(i), x[i].content, y[i].content);
            }
            assert(x =~= y);
        },
        _ => {},
    }
}

/// A snapshot is fixed by what was found: reading an unchanged location twice makes
/// the same findings, so the two contents are equal, and so are the two entries
/// named after the same path.
pub proof fn law_reflexive(log: Map<Seq<int>, Observed>, path: Seq<char>, a: ContentView, b: ContentView)
    requires
        records(log, Seq::empty(), a),
        records(log, Seq::empty(), b),
    ensures
        a == b,
        name_of(path) matches Some(name) ==> (EntryView { name, content: a }) == (EntryView {
            name,
            content: b,
        }),
{
    lemma_records_unique(log, Seq::empty(), a, b);
}

/// Contents ignore the top-level name and entries do not: the same findings read at
/// two paths of different names give equal contents but unequal entries.
pub proof fn law_name_sensitive(
    log: Map<Seq<int>, Observed>,
    path_a: Seq<char>,
    path_b: Seq<char>,
    a: ContentView,
    b: ContentView,
)
    requires
        records(log, Seq::empty(), a),
        records(log, Seq::empty(), b),
        name_of(path_a) is Some,
        name_of(path_b) is Some,
        name_of(path_a) != name_of(path_b),
    ensures
        a == b,
        (EntryView { name: name_of(path_a)->0, content: a }) != (EntryView {
            name: name_of(path_b)->0,
            content: b,
        }),
{
    lemma_records_unique(log, Seq::empty(), a, b);
}

/// Changing one byte of one file anywhere in a tree makes the tree unequal to what
/// it was, as content and as an entry of any name; each directory above the file
/// is the top of a tree of its own, so the same holds of it.
pub proof fn law_byte_sensitive(
    c: ContentView,
    pos: Seq<int>,
    bytes: Seq<u8>,
    k: int,
    b: u8,
    name: Seq<char>,
)
    requires
        node_at(c, pos) == Some(ContentView::File(bytes)),
        0 <= k < bytes.len(),
        bytes[k] != b,
    ensures
        replace_at(c, pos, ContentView::File(bytes.update(k, b))) != c,
        (EntryView { name, content: replace_at(c, pos, ContentView::File(bytes.update(k, b))) })
            != (EntryView { name, content: c }),
{
    let changed = ContentView::File(bytes.update(k, b));
    lemma_replace_at(c, pos, changed);
    assert(bytes.update(k, b)[k] != bytes[k]);
    assert(changed != ContentView::File(bytes));
}

/// Directories compare position by position: swapping two different children of
/// a directory makes it unequal to what it was.
pub proof fn law_order_sensitive(entries: Seq<EntryView>, i: int, j: int)
    requires
        0 <= i < entries.len(),
        0 <= j < entries.len(),
        entries[i] != entries[j],
    ensures
        ContentView::Entries(entries.update(i, entries[j]).update(j, entries[i]))
            != ContentView::Entries(entries),
{
    let swapped = entries.update(i, entries[j]).update(j, entries[i]);
    assert(swapped[j] != entries[j]);
}

} // verus!
