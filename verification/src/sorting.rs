//! The order of a listing: what it is for entries to be sorted by name,
//! and the one sorted sequence that a sequence of entries has.

use vstd::prelude::*;
use crate::entry::EntryView;
use crate::order::{
    lemma_name_le_antisymmetric, lemma_name_le_total, lemma_name_le_transitive, name_le,
};

verus! {

/// Where an entry called `name` goes into a sorted sequence: behind the last
/// entry whose name is at or before `name`.
pub open spec fn insert_position(sorted: Seq<EntryView>, name: Seq<char>) -> nat
    decreases sorted.len(),
{
    if sorted.len() == 0 {
        0
    } else if name_le(sorted.last().name, name) {
        sorted.len()
    } else {
        insert_position(sorted.drop_last(), name)
    }
}

/// A sorted sequence with one more entry, placed behind its equals.
pub open spec fn insert_by_name(sorted: Seq<EntryView>, entry: EntryView) -> Seq<EntryView> {
    sorted.insert(insert_position(sorted, entry.name) as int, entry)
}

/// The entries of `entries` in the order of their names, entries of one
/// name in the order in which they stand in `entries`.
pub open spec fn sort_by_name(entries: Seq<EntryView>) -> Seq<EntryView>
    decreases entries.len(),
{
    if entries.len() == 0 {
        Seq::empty()
    } else {
        insert_by_name(sort_by_name(entries.drop_last()), entries.last())
    }
}

/// No entry stands before one whose name precedes its own.
pub open spec fn sorted_by_name(entries: Seq<EntryView>) -> bool {
    forall|i: int, j: int|
        0 <= i < j < entries.len() ==> name_le(
            #[trigger] entries[i].name,
            #[trigger] entries[j].name,
        )
}

/// The entries called `name`, in the order in which they stand in `entries`.
pub open spec fn with_name(entries: Seq<EntryView>, name: Seq<char>) -> Seq<EntryView> {
    entries.filter(|e: EntryView| e.name == name)
}

/// `a` and `b` hold, for each name, the same entries in the same order.
pub open spec fn same_by_name(a: Seq<EntryView>, b: Seq<EntryView>) -> bool {
    forall|name: Seq<char>| #[trigger] with_name(a, name) == with_name(b, name)
}

/// One more entry joins the entries of its own name, at their end, and no
/// others.
pub proof fn lemma_with_name_push(entries: Seq<EntryView>, entry: EntryView, name: Seq<char>)
    ensures
        with_name(entries.push(entry), name) == if entry.name == name {
            with_name(entries, name).push(entry)
        } else {
            with_name(entries, name)
        },
{
    reveal(Seq::filter);
    assert(entries.push(entry).drop_last() == entries);
}

/// The entries of one name in a concatenation are those of its parts.
pub proof fn lemma_with_name_add(a: Seq<EntryView>, b: Seq<EntryView>, name: Seq<char>)
    ensures
        with_name(a + b, name) == with_name(a, name) + with_name(b, name),
{
    Seq::filter_distributes_over_add(a, b, |e: EntryView| e.name == name);
}

/// A sequence in which no entry is called `name` has no entries of that name.
pub proof fn lemma_with_name_none(entries: Seq<EntryView>, name: Seq<char>)
    requires
        forall|i: int| 0 <= i < entries.len() ==> entries[i].name != name,
    ensures
        with_name(entries, name) == Seq::<EntryView>::empty(),
    decreases entries.len(),
{
    reveal(Seq::filter);
    if entries.len() > 0 {
        lemma_with_name_none(entries.drop_last(), name);
    }
}

/// An entry of a sequence stands among the entries of its name.
pub proof fn lemma_with_name_holds(entries: Seq<EntryView>, i: int)
    requires
        0 <= i < entries.len(),
    ensures
        with_name(entries, entries[i].name).contains(entries[i]),
{
}

/// What stands among the entries of a name stands in the sequence, under
/// that name.
pub proof fn lemma_with_name_from(entries: Seq<EntryView>, name: Seq<char>, entry: EntryView)
    requires
        with_name(entries, name).contains(entry),
    ensures
        entries.contains(entry),
        entry.name == name,
{
    let j = choose|j: int|
        0 <= j < with_name(entries, name).len() && with_name(entries, name)[j] == entry;
    lemma_filter_from(entries, |e: EntryView| e.name == name, j);
}

/// What a filter lets through stood in the sequence.
pub proof fn lemma_filter_from(s: Seq<EntryView>, pred: spec_fn(EntryView) -> bool, j: int)
    requires
        0 <= j < s.filter(pred).len(),
    ensures
        s.contains(s.filter(pred)[j]),
    decreases s.len(),
{
    reveal(Seq::filter);
    if s.len() > 0 {
        let rest = s.drop_last();
        if !(pred(s.last()) && j == rest.filter(pred).len()) {
            lemma_filter_from(rest, pred, j);
        }
    }
}

/// The insert position splits a sorted sequence: what stands before it is at
/// or before `name`, what stands from it on is strictly behind `name`.
pub proof fn lemma_insert_position(sorted: Seq<EntryView>, name: Seq<char>)
    requires
        sorted_by_name(sorted),
    ensures
        insert_position(sorted, name) <= sorted.len(),
        forall|i: int|
            0 <= i < insert_position(sorted, name) ==> name_le((#[trigger] sorted[i]).name, name),
        forall|i: int|
            insert_position(sorted, name) <= i < sorted.len() ==> !name_le(
                (#[trigger] sorted[i]).name,
                name,
            ),
    decreases sorted.len(),
{
    if sorted.len() > 0 {
        if name_le(sorted.last().name, name) {
            assert forall|i: int| 0 <= i < sorted.len() implies name_le(
                (#[trigger] sorted[i]).name,
                name,
            ) by {
                if i < sorted.len() - 1 {
                    lemma_name_le_transitive(sorted[i].name, sorted.last().name, name);
                }
            }
        } else {
            let rest = sorted.drop_last();
            lemma_insert_position(rest, name);
            let p = insert_position(sorted, name);
            assert forall|i: int| 0 <= i < p implies name_le((#[trigger] sorted[i]).name, name) by {
                assert(rest[i] == sorted[i]);
            }
            assert forall|i: int| p <= i < sorted.len() implies !name_le(
                (#[trigger] sorted[i]).name,
                name,
            ) by {
                if i < rest.len() {
                    assert(rest[i] == sorted[i]);
                }
            }
        }
    }
}

/// Inserting by name keeps a sorted sequence sorted.
pub proof fn lemma_insert_sorted(sorted: Seq<EntryView>, entry: EntryView)
    requires
        sorted_by_name(sorted),
    ensures
        sorted_by_name(insert_by_name(sorted, entry)),
{
    lemma_insert_position(sorted, entry.name);
    let p = insert_position(sorted, entry.name) as int;
    let out = insert_by_name(sorted, entry);
    assert forall|i: int, j: int| 0 <= i < j < out.len() implies name_le(
        #[trigger] out[i].name,
        #[trigger] out[j].name,
    ) by {
        if i == p {
            // What stands behind the new entry is not at or before it.
            lemma_name_le_total(sorted[j - 1].name, entry.name);
        }
    }
}

/// Inserting by name adds the entry at the end of the entries of its own
/// name and leaves the entries of every other name as they were.
pub proof fn lemma_insert_with_name(sorted: Seq<EntryView>, entry: EntryView, name: Seq<char>)
    requires
        sorted_by_name(sorted),
    ensures
        with_name(insert_by_name(sorted, entry), name) == with_name(sorted.push(entry), name),
{
    lemma_insert_position(sorted, entry.name);
    let p = insert_position(sorted, entry.name) as int;
    let front = sorted.take(p);
    let back = sorted.skip(p);
    assert(sorted == front + back);
    lemma_with_name_push(front, entry, name);
    lemma_with_name_push(sorted, entry, name);
    if entry.name == name {
        lemma_with_name_none(back, name);
    }
}

/// Sorting by name gives a sorted sequence that holds, for each name, the
/// same entries in the same order as before.
pub proof fn lemma_sort_by_name(entries: Seq<EntryView>)
    ensures
        sorted_by_name(sort_by_name(entries)),
        same_by_name(sort_by_name(entries), entries),
        sort_by_name(entries).len() == entries.len(),
    decreases entries.len(),
{
    if entries.len() == 0 {
        assert(entries == Seq::<EntryView>::empty());
    } else {
        let rest = entries.drop_last();
        let last = entries.last();
        lemma_sort_by_name(rest);
        lemma_insert_sorted(sort_by_name(rest), last);
        lemma_insert_position(sort_by_name(rest), last.name);
        assert(entries == rest.push(last));
        assert forall|name: Seq<char>| #[trigger]
            with_name(sort_by_name(entries), name) == with_name(entries, name) by {
            lemma_insert_with_name(sort_by_name(rest), last, name);
            lemma_with_name_push(sort_by_name(rest), last, name);
            lemma_with_name_push(rest, last, name);
        }
    }
}

/// Two sorted sequences that hold, for each name, the same entries in the
/// same order are one and the same sequence.
pub proof fn lemma_sorted_unique(a: Seq<EntryView>, b: Seq<EntryView>)
    requires
        sorted_by_name(a),
        sorted_by_name(b),
        same_by_name(a, b),
    ensures
        a == b,
    decreases a.len(),
{
    if a.len() == 0 {
        if b.len() > 0 {
            // An entry of `b` would stand in `a` too.
            lemma_with_name_from(a, b.last().name, b.last());
        }
    } else {
        // The last entry of each stands in the other, so the two are called
        // alike.
        let x = a.last();
        lemma_with_name_holds(a, a.len() - 1);
        lemma_with_name_from(b, x.name, x);
        let y = b.last();
        lemma_with_name_from(a, y.name, y);
        lemma_name_le_antisymmetric(x.name, y.name);
        // Each is then the last entry of that name, so they are the same
        // entry, and without it the two sequences still agree name by name.
        let a0 = a.drop_last();
        let b0 = b.drop_last();
        assert(a == a0.push(x));
        assert(b == b0.push(y));
        assert forall|name: Seq<char>| #[trigger] with_name(a0, name) == with_name(b0, name) by {
            lemma_with_name_push(a0, x, name);
            lemma_with_name_push(b0, y, name);
            if name == x.name {
                assert(with_name(b0, name).push(y).drop_last() == with_name(b0, name));
            }
        }
        assert(x == y) by {
            lemma_with_name_push(a0, x, x.name);
            lemma_with_name_push(b0, y, x.name);
            assert(with_name(b0, x.name).push(y).last() == y);
        }
        lemma_sorted_unique(a0, b0);
    }
}

} // verus!
