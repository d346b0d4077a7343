//! Sorting entries by name: a merge sort that keeps entries of one name in
//! the order in which they came.

use vstd::prelude::*;
use vstd::string::*;
use crate::entry::{DirectoryEntry, EntryView};
use crate::order::{lemma_name_le_total, lemma_name_le_transitive, name_le, names_in_order};
use crate::sorting::{
    lemma_sort_by_name, lemma_sorted_unique, lemma_with_name_none, lemma_with_name_push,
    sort_by_name, sorted_by_name, with_name,
};

verus! {

/// Two sorted runs as one: built from the back, where the later entry of
/// the two last ones goes last, and of two that are called alike the one
/// of `back`.
pub open spec fn merged(front: Seq<EntryView>, back: Seq<EntryView>) -> Seq<EntryView>
    decreases front.len() + back.len(),
{
    if front.len() == 0 {
        back
    } else if back.len() == 0 {
        front
    } else if name_le(front.last().name, back.last().name) {
        merged(front, back.drop_last()).push(back.last())
    } else {
        merged(front.drop_last(), back).push(front.last())
    }
}

/// Every entry is called `name` or stands before that name.
pub open spec fn all_le(entries: Seq<EntryView>, name: Seq<char>) -> bool {
    forall|i: int| 0 <= i < entries.len() ==> name_le((#[trigger] entries[i]).name, name)
}

/// What bounds both runs bounds their merge.
proof fn lemma_merged_bounded(front: Seq<EntryView>, back: Seq<EntryView>, name: Seq<char>)
    requires
        all_le(front, name),
        all_le(back, name),
    ensures
        all_le(merged(front, back), name),
    decreases front.len() + back.len(),
{
    if front.len() > 0 && back.len() > 0 {
        if name_le(front.last().name, back.last().name) {
            let rest = back.drop_last();
            lemma_merged_bounded(front, rest, name);
        } else {
            let rest = front.drop_last();
            lemma_merged_bounded(rest, back, name);
        }
    }
}

/// What bounds a name bounds whatever that name bounds.
proof fn lemma_all_le_widen(entries: Seq<EntryView>, name: Seq<char>, wider: Seq<char>)
    requires
        all_le(entries, name),
        name_le(name, wider),
    ensures
        all_le(entries, wider),
{
    assert forall|i: int| 0 <= i < entries.len() implies name_le(
        (#[trigger] entries[i]).name,
        wider,
    ) by {
        lemma_name_le_transitive(entries[i].name, name, wider);
    }
}

/// The merge of two sorted runs is sorted and holds, for each name, the
/// entries of `front` of that name and then those of `back`.
pub proof fn lemma_merged(front: Seq<EntryView>, back: Seq<EntryView>)
    requires
        sorted_by_name(front),
        sorted_by_name(back),
    ensures
        sorted_by_name(merged(front, back)),
        forall|name: Seq<char>| #[trigger]
            with_name(merged(front, back), name) == with_name(front, name) + with_name(back, name),
        merged(front, back).len() == front.len() + back.len(),
    decreases front.len() + back.len(),
{
    if front.len() > 0 && back.len() > 0 {
        let x = front.last();
        let y = back.last();
        if name_le(x.name, y.name) {
            // The last entry of `back` goes last: it bounds both runs.
            let rest = back.drop_last();
            lemma_merged(front, rest);
            lemma_all_le_widen(front, x.name, y.name);
            lemma_merged_bounded(front, rest, y.name);
            assert(back == rest.push(y));
            assert forall|name: Seq<char>| #[trigger]
                with_name(merged(front, back), name) == with_name(front, name) + with_name(
                    back,
                    name,
                ) by {
                lemma_with_name_push(merged(front, rest), y, name);
                lemma_with_name_push(rest, y, name);
            }
        } else {
            // The last entry of `front` goes last: it stands strictly behind
            // all of `back`, where no entry is then called as it is.
            let rest = front.drop_last();
            lemma_merged(rest, back);
            lemma_name_le_total(x.name, y.name);
            lemma_all_le_widen(back, y.name, x.name);
            lemma_merged_bounded(rest, back, x.name);
            assert(front == rest.push(x));
            assert forall|name: Seq<char>| #[trigger]
                with_name(merged(front, back), name) == with_name(front, name) + with_name(
                    back,
                    name,
                ) by {
                lemma_with_name_push(merged(rest, back), x, name);
                lemma_with_name_push(rest, x, name);
                if x.name == name {
                    lemma_with_name_none(back, name);
                }
            }
        }
    }
}

/// Merging the sorted halves of a sequence sorts it.
pub proof fn lemma_merged_sorts(front: Seq<EntryView>, back: Seq<EntryView>)
    ensures
        merged(sort_by_name(front), sort_by_name(back)) == sort_by_name(front + back),
{
    lemma_sort_by_name(front);
    lemma_sort_by_name(back);
    lemma_sort_by_name(front + back);
    lemma_merged(sort_by_name(front), sort_by_name(back));
    lemma_sorted_unique(
        merged(sort_by_name(front), sort_by_name(back)),
        sort_by_name(front + back),
    );
}

/// Merges two sorted runs.
fn merge_sorted(front: Vec<DirectoryEntry>, back: Vec<DirectoryEntry>) -> (out: Vec<
    DirectoryEntry,
>)
    ensures
        out.deep_view() == merged(front.deep_view(), back.deep_view()),
{
    let ghost whole = merged(front.deep_view(), back.deep_view());
    let mut a = front;
    let mut b = back;
    // The entries already placed, the last of the merge first.
    let mut placed: Vec<DirectoryEntry> = Vec::new();
    while a.len() > 0 && b.len() > 0
        invariant
            merged(a.deep_view(), b.deep_view()) + placed.deep_view().reverse() == whole,
        decreases a.len() + b.len(),
    {
        let ghost run_a = a.deep_view();
        let ghost run_b = b.deep_view();
        if names_in_order(a[a.len() - 1].name.as_str(), b[b.len() - 1].name.as_str()) {
            let entry = b.pop().unwrap();
            placed.push(entry);
            assert(b.deep_view() == run_b.drop_last());
        } else {
            let entry = a.pop().unwrap();
            placed.push(entry);
            assert(a.deep_view() == run_a.drop_last());
        }
    }
    let mut out = if a.len() == 0 {
        b
    } else {
        a
    };
    while placed.len() > 0
        invariant
            out.deep_view() + placed.deep_view().reverse() == whole,
        decreases placed.len(),
    {
        let entry = placed.pop().unwrap();
        out.push(entry);
    }
    out
}

/// Sorts entries by name; entries of one name keep their order.
pub fn sort_entries(entries: Vec<DirectoryEntry>) -> (sorted: Vec<DirectoryEntry>)
    ensures
        sorted.deep_view() == sort_by_name(entries.deep_view()),
    decreases entries.len(),
{
    let ghost all = entries.deep_view();
    if entries.len() <= 1 {
        proof {
            reveal_with_fuel(sort_by_name, 2);
        }
        return entries;
    }
    let mut front = entries;
    let half: usize = front.len() / 2;
    let back = front.split_off(half);
    assert(front.deep_view() == all.subrange(0, half as int));
    assert(back.deep_view() == all.subrange(half as int, all.len() as int));
    assert(all == all.subrange(0, half as int) + all.subrange(half as int, all.len() as int));
    let front = sort_entries(front);
    let back = sort_entries(back);
    proof {
        lemma_merged_sorts(
            all.subrange(0, half as int),
            all.subrange(half as int, all.len() as int),
        );
    }
    merge_sorted(front, back)
}

} // verus!
