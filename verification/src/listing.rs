//! Listing a directory: the entries that are kept, in the order of their
//! names.

use vstd::prelude::*;
use vstd::string::*;
use crate::entry::{excluded, should_exclude, DirectoryEntry, EntryView};
use crate::merge::sort_entries;
use crate::sorting::{
    lemma_filter_from, lemma_sort_by_name, lemma_sorted_unique, lemma_with_name_from,
    lemma_with_name_holds, lemma_with_name_push, same_by_name, sort_by_name, sorted_by_name,
    with_name,
};

verus! {

/// The entries that are not excluded, in the order in which they were read.
pub open spec fn kept(raw: Seq<EntryView>, exclude: Seq<Seq<char>>) -> Seq<EntryView> {
    raw.filter(|e: EntryView| !excluded(e.name, exclude))
}

/// What listing a directory gives: of the entries read, those that are not
/// excluded, sorted by name.
pub open spec fn listing(raw: Seq<EntryView>, exclude: Seq<Seq<char>>) -> Seq<EntryView> {
    sort_by_name(kept(raw, exclude))
}

/// `out` is a listing of `raw`: sorted by name, and for each name exactly
/// the kept entries of that name, in the order in which they were read.
pub open spec fn is_listing_of(
    out: Seq<EntryView>,
    raw: Seq<EntryView>,
    exclude: Seq<Seq<char>>,
) -> bool {
    &&& sorted_by_name(out)
    &&& same_by_name(out, kept(raw, exclude))
}

/// Reading one more entry keeps it unless its name is excluded.
pub proof fn lemma_kept_push(raw: Seq<EntryView>, entry: EntryView, exclude: Seq<Seq<char>>)
    ensures
        kept(raw.push(entry), exclude) == if excluded(entry.name, exclude) {
            kept(raw, exclude)
        } else {
            kept(raw, exclude).push(entry)
        },
{
    reveal(Seq::filter);
    assert(raw.push(entry).drop_last() == raw);
}

/// Every entry of a listing was read, and none has an excluded name.
pub proof fn lemma_listing_keeps(raw: Seq<EntryView>, exclude: Seq<Seq<char>>)
    ensures
        sorted_by_name(listing(raw, exclude)),
        forall|i: int|
            0 <= i < listing(raw, exclude).len() ==> {
                &&& raw.contains(#[trigger] listing(raw, exclude)[i])
                &&& !excluded(listing(raw, exclude)[i].name, exclude)
            },
{
    let out = listing(raw, exclude);
    lemma_sort_by_name(kept(raw, exclude));
    assert forall|i: int| 0 <= i < out.len() implies {
        &&& raw.contains(#[trigger] out[i])
        &&& !excluded(out[i].name, exclude)
    } by {
        // The entry stands among the kept entries of its name, and what
        // is kept was read and is not excluded.
        let e = out[i];
        lemma_with_name_holds(out, i);
        lemma_with_name_from(kept(raw, exclude), e.name, e);
        let j = choose|j: int| 0 <= j < kept(raw, exclude).len() && kept(raw, exclude)[j] == e;
        lemma_filter_from(raw, |x: EntryView| !excluded(x.name, exclude), j);
    }
}

/// Exclusion: an entry is listed exactly if it was read and its name is
/// not in the exclusion set.
pub proof fn lemma_listed_iff_kept(raw: Seq<EntryView>, exclude: Seq<Seq<char>>, entry: EntryView)
    ensures
        listing(raw, exclude).contains(entry) <==> raw.contains(entry) && !excluded(
            entry.name,
            exclude,
        ),
{
    let out = listing(raw, exclude);
    let all = kept(raw, exclude);
    lemma_listing_keeps(raw, exclude);
    lemma_sort_by_name(all);
    if raw.contains(entry) && !excluded(entry.name, exclude) {
        // The entry is kept, so it stands among the kept entries of its
        // name, which the listing holds too.
        let j = choose|j: int| 0 <= j < raw.len() && raw[j] == entry;
        assert(all.contains(raw[j]));
        let k = choose|k: int| 0 <= k < all.len() && all[k] == entry;
        lemma_with_name_holds(all, k);
        lemma_with_name_from(out, entry.name, entry);
    }
}

/// The listing of a directory is the one sequence that is sorted by name
/// and holds, for each name, the kept entries of that name in the order in
/// which they were read.
pub proof fn lemma_listing_characterized(
    out: Seq<EntryView>,
    raw: Seq<EntryView>,
    exclude: Seq<Seq<char>>,
)
    ensures
        is_listing_of(out, raw, exclude) <==> out == listing(raw, exclude),
{
    lemma_sort_by_name(kept(raw, exclude));
    if is_listing_of(out, raw, exclude) {
        lemma_sorted_unique(out, listing(raw, exclude));
    }
}

/// No two entries share a name, as in any one directory.
pub open spec fn distinct_names(entries: Seq<EntryView>) -> bool {
    forall|i: int, j: int|
        0 <= i < j < entries.len() ==> (#[trigger] entries[i]).name != (#[trigger] entries[j]).name
}

/// The two sequences hold the same entries, in whatever order.
pub open spec fn same_entries(a: Seq<EntryView>, b: Seq<EntryView>) -> bool {
    forall|entry: EntryView| a.contains(entry) <==> b.contains(entry)
}

/// Among entries of distinct names, the kept entries of one name are at
/// most one, and it is an entry that was read, of that name and not
/// excluded.
proof fn lemma_kept_with_name(raw: Seq<EntryView>, exclude: Seq<Seq<char>>, name: Seq<char>)
    requires
        distinct_names(raw),
    ensures
        with_name(kept(raw, exclude), name).len() <= 1,
        forall|entry: EntryView|
            with_name(kept(raw, exclude), name).contains(entry) <==> raw.contains(entry)
                && entry.name == name && !excluded(name, exclude),
    decreases raw.len(),
{
    let group = with_name(kept(raw, exclude), name);
    if raw.len() > 0 {
        let rest = raw.drop_last();
        let last = raw.last();
        assert(raw == rest.push(last));
        lemma_kept_with_name(rest, exclude, name);
        lemma_kept_push(rest, last, exclude);
        let before = with_name(kept(rest, exclude), name);
        if excluded(last.name, exclude) || last.name != name {
            // The last entry does not count: the group is that of the rest.
            if !excluded(last.name, exclude) {
                lemma_with_name_push(kept(rest, exclude), last, name);
            }
            assert(group == before);
            assert forall|entry: EntryView|
                group.contains(entry) <==> raw.contains(entry) && entry.name == name && !excluded(
                    name,
                    exclude,
                ) by {
                if rest.contains(entry) {
                    let i = choose|i: int| 0 <= i < rest.len() && rest[i] == entry;
                    assert(raw[i] == entry);
                }
            }
        } else {
            // The last entry counts, and no entry of the rest is called as
            // it is: the group is this one entry.
            lemma_with_name_push(kept(rest, exclude), last, name);
            if before.len() > 0 {
                assert(rest.contains(before[0]) && before[0].name == name);
            }
            assert(group == seq![last]);
            assert forall|entry: EntryView|
                group.contains(entry) <==> raw.contains(entry) && entry.name == name && !excluded(
                    name,
                    exclude,
                ) by {
                if raw.contains(entry) && entry.name == name {
                    assert(group[0] == entry);
                }
            }
        }
    }
}

/// Idempotence of listing. Two readings of one directory, which hold the
/// same entries under distinct names in whatever order, give the same
/// listing.
pub proof fn lemma_listing_ignores_read_order(
    one: Seq<EntryView>,
    other: Seq<EntryView>,
    exclude: Seq<Seq<char>>,
)
    requires
        distinct_names(one),
        distinct_names(other),
        same_entries(one, other),
    ensures
        listing(one, exclude) == listing(other, exclude),
{
    lemma_sort_by_name(kept(one, exclude));
    lemma_sort_by_name(kept(other, exclude));
    let a = listing(one, exclude);
    let b = listing(other, exclude);
    assert forall|name: Seq<char>| #[trigger] with_name(a, name) == with_name(b, name) by {
        // In each reading the kept entries of one name are at most one,
        // and what the one reading holds the other holds too.
        let ga = with_name(kept(one, exclude), name);
        let gb = with_name(kept(other, exclude), name);
        lemma_kept_with_name(one, exclude, name);
        lemma_kept_with_name(other, exclude, name);
        if ga.len() > 0 {
            assert(one.contains(ga[0]) <==> other.contains(ga[0]));
        }
        if gb.len() > 0 {
            assert(one.contains(gb[0]) <==> other.contains(gb[0]));
        }
        assert(ga == gb);
    }
    lemma_sorted_unique(a, b);
}

/// Lists a directory from the entries read in it: drops the excluded ones
/// and sorts the others by name.
pub fn list_entries(raw: Vec<DirectoryEntry>, exclude_dirs: &[String]) -> (entries: Vec<
    DirectoryEntry,
>)
    ensures
        entries.deep_view() == listing(raw.deep_view(), exclude_dirs.deep_view()),
        is_listing_of(entries.deep_view(), raw.deep_view(), exclude_dirs.deep_view()),
{
    let ghost all = raw.deep_view();
    let ghost exclude = exclude_dirs.deep_view();
    let ghost n = raw.len();
    let mut unsorted: Vec<DirectoryEntry> = Vec::new();
    for entry in it: raw
        invariant
            it.seq().len() == n,
            all.len() == n,
            exclude == exclude_dirs.deep_view(),
            forall|j: int| 0 <= j < n ==> it.seq()[j]@ == all[j],
            unsorted.deep_view() == kept(all.take(it.index() as int), exclude),
    {
        let ghost i = it.index() as int;
        proof {
            assert(all.take(i + 1) == all.take(i).push(all[i]));
            lemma_kept_push(all.take(i), all[i], exclude);
        }
        if !should_exclude(entry.name.as_str(), exclude_dirs) {
            unsorted.push(entry);
        }
    }
    assert(all.take(n as int) == all);
    proof {
        lemma_sort_by_name(kept(all, exclude));
    }
    sort_entries(unsorted)
}

} // verus!
