//! Which children of a directory are shown.

use crate::entry::{
    entry_before, entry_views, insert_point, lemma_entry_order_transitive,
    lemma_insert_point_bounds, lemma_sorted_entries_ordered, ordered, sorted_entries,
    DirectoryEntry, EntryView,
};
use crate::names::{lemma_name_order_total, name_before};
use vstd::prelude::*;

verus! {

/// The names to leave out, and whether files are shown at all.
pub struct Filters {
    /// Directories with one of these names are left out, with all below them.
    pub skip_dirs: Vec<String>,
    /// Files with one of these names are left out.
    pub skip_files: Vec<String>,
    /// Whether files are shown.
    pub show_files: bool,
}

/// What [`Filters`] stand for: two sets of names and a flag.
pub struct FiltersView {
    pub skip_dirs: Set<Seq<char>>,
    pub skip_files: Set<Seq<char>>,
    pub show_files: bool,
}

/// The names that occur in a list.
pub open spec fn name_set(names: Seq<String>) -> Set<Seq<char>> {
    Set::new(|n: Seq<char>| exists|i: int| 0 <= i < names.len() && (#[trigger] names[i])@ == n)
}

impl View for Filters {
    type V = FiltersView;

    open spec fn view(&self) -> FiltersView {
        FiltersView {
            skip_dirs: name_set(self.skip_dirs@),
            skip_files: name_set(self.skip_files@),
            show_files: self.show_files,
        }
    }
}

/// Whether an entry is shown: a directory unless its name is to be skipped,
/// a file if files are shown and its name is not to be skipped.
pub open spec fn survives(e: EntryView, f: FiltersView) -> bool {
    if e.is_directory {
        !f.skip_dirs.contains(e.name)
    } else {
        f.show_files && !f.skip_files.contains(e.name)
    }
}

/// The entries of `s` that are shown, in the order they have in `s`.
pub open spec fn surviving(s: Seq<EntryView>, f: FiltersView) -> Seq<EntryView>
    decreases s.len(),
{
    if s.len() == 0 {
        s
    } else if survives(s.last(), f) {
        surviving(s.drop_last(), f).push(s.last())
    } else {
        surviving(s.drop_last(), f)
    }
}

/// Every entry that is kept is shown under the filters, and stood in the
/// sequence that was filtered: no directory with a skipped name is kept, no
/// file with a skipped name, and no file at all where files are hidden.
pub proof fn lemma_surviving_members(s: Seq<EntryView>, f: FiltersView)
    ensures
        surviving(s, f).len() <= s.len(),
        forall|i: int|
            0 <= i < surviving(s, f).len() ==> {
                let e = #[trigger] surviving(s, f)[i];
                &&& survives(e, f)
                &&& s.contains(e)
                &&& (e.is_directory ==> !f.skip_dirs.contains(e.name))
                &&& (!e.is_directory ==> f.show_files && !f.skip_files.contains(e.name))
            },
    decreases s.len(),
{
    if s.len() > 0 {
        let head = surviving(s.drop_last(), f);
        lemma_surviving_members(s.drop_last(), f);
        assert forall|i: int| 0 <= i < surviving(s, f).len() implies s.contains(
            #[trigger] surviving(s, f)[i],
        ) by {
            if i < head.len() {
                let k = choose|k: int| 0 <= k < s.drop_last().len() && s.drop_last()[k] == head[i];
                assert(s[k] == head[i]);
            } else {
                assert(s[s.len() - 1] == s.last());
            }
        }
    }
}

/// Every entry that is shown under the filters is kept, as often as it
/// stands in the sequence.
pub proof fn lemma_surviving_complete(s: Seq<EntryView>, f: FiltersView, i: int)
    requires
        0 <= i < s.len(),
        survives(s[i], f),
    ensures
        surviving(s, f).contains(s[i]),
    decreases s.len(),
{
    let head = surviving(s.drop_last(), f);
    if i == s.len() - 1 {
        assert(surviving(s, f)[head.len() as int] == s[i]);
    } else {
        lemma_surviving_complete(s.drop_last(), f, i);
        let k = choose|k: int| 0 <= k < head.len() && head[k] == s.drop_last()[i];
        assert(surviving(s, f)[k] == s[i]);
    }
}

/// Leaving entries out does not disturb the listing order.
pub proof fn lemma_surviving_ordered(s: Seq<EntryView>, f: FiltersView)
    requires
        ordered(s),
    ensures
        ordered(surviving(s, f)),
    decreases s.len(),
{
    if s.len() > 0 {
        let t = s.drop_last();
        let head = surviving(t, f);
        assert forall|i: int, j: int| 0 <= i < j < t.len() implies !entry_before(
            #[trigger] t[j],
            #[trigger] t[i],
        ) by {
            assert(t[i] == s[i] && t[j] == s[j]);
        }
        lemma_surviving_ordered(t, f);
        lemma_surviving_members(t, f);
        let out = surviving(s, f);
        assert forall|i: int, j: int| 0 <= i < j < out.len() implies !entry_before(
            #[trigger] out[j],
            #[trigger] out[i],
        ) by {
            if j < head.len() {
                assert(out[i] == head[i] && out[j] == head[j]);
            } else {
                assert(out[i] == head[i]);
                let k = choose|k: int| 0 <= k < t.len() && t[k] == head[i];
                assert(s[k] == head[i]);
                assert(out[j] == s[s.len() - 1]);
            }
        }
    }
}

/// What is shown of a directory stands in listing order: every directory
/// before every file, and within each kind no name before one that comes
/// before it in the order of names.
pub proof fn lemma_shown_in_listing_order(entries: Seq<EntryView>, f: FiltersView)
    ensures
        forall|i: int, j: int|
            0 <= i < j < surviving(sorted_entries(entries), f).len() ==> {
                let a = #[trigger] surviving(sorted_entries(entries), f)[i];
                let b = #[trigger] surviving(sorted_entries(entries), f)[j];
                &&& (b.is_directory ==> a.is_directory)
                &&& (a.is_directory == b.is_directory ==> !name_before(b.name, a.name))
            },
{
    let shown = surviving(sorted_entries(entries), f);
    lemma_sorted_entries_ordered(entries);
    lemma_surviving_ordered(sorted_entries(entries), f);
    assert forall|i: int, j: int| 0 <= i < j < shown.len() implies {
        let a = #[trigger] shown[i];
        let b = #[trigger] shown[j];
        &&& (b.is_directory ==> a.is_directory)
        &&& (a.is_directory == b.is_directory ==> !name_before(b.name, a.name))
    } by {
        assert(!entry_before(shown[j], shown[i]));
    }
}

/// Filtering a sequence in two parts gives the two parts filtered.
pub proof fn lemma_surviving_concat(a: Seq<EntryView>, b: Seq<EntryView>, f: FiltersView)
    ensures
        surviving(a + b, f) == surviving(a, f) + surviving(b, f),
    decreases b.len(),
{
    if b.len() == 0 {
        assert(a + b =~= a);
        assert(surviving(a, f) + surviving(b, f) =~= surviving(a, f));
    } else {
        lemma_surviving_concat(a, b.drop_last(), f);
        assert((a + b).drop_last() =~= a + b.drop_last());
        assert((a + b).last() == b.last());
        if survives(b.last(), f) {
            assert(surviving(a, f) + surviving(b.drop_last(), f).push(b.last()) =~= (surviving(a, f)
                + surviving(b.drop_last(), f)).push(b.last()));
        }
    }
}

proof fn lemma_insert_point_split(a: Seq<EntryView>, b: Seq<EntryView>, x: EntryView)
    requires
        forall|k: int| 0 <= k < a.len() ==> entry_before(#[trigger] a[k], x),
        b.len() > 0 ==> !entry_before(b[0], x),
    ensures
        insert_point(a + b, x) == a.len(),
    decreases a.len(),
{
    if a.len() == 0 {
        assert(a + b =~= b);
    } else {
        assert((a + b)[0] == a[0]);
        assert((a + b).drop_first() =~= a.drop_first() + b);
        assert forall|k: int| 0 <= k < a.drop_first().len() implies entry_before(
            #[trigger] a.drop_first()[k],
            x,
        ) by {
            assert(a.drop_first()[k] == a[k + 1]);
        }
        lemma_insert_point_split(a.drop_first(), b, x);
    }
}

proof fn lemma_surviving_insert(t: Seq<EntryView>, x: EntryView, f: FiltersView)
    requires
        ordered(t),
    ensures
        surviving(t.insert(insert_point(t, x), x), f) == if survives(x, f) {
            surviving(t, f).insert(insert_point(surviving(t, f), x), x)
        } else {
            surviving(t, f)
        },
{
    let p = insert_point(t, x);
    lemma_insert_point_bounds(t, x);
    let a = t.take(p);
    let b = t.skip(p);
    let one = seq![x];
    assert(t =~= a + b);
    assert(t.insert(p, x) =~= (a + one) + b);
    lemma_surviving_concat(a, b, f);
    lemma_surviving_concat(a + one, b, f);
    lemma_surviving_concat(a, one, f);
    assert(one.drop_last() =~= Seq::<EntryView>::empty());
    assert(surviving(one.drop_last(), f) =~= Seq::<EntryView>::empty());
    let fa = surviving(a, f);
    let fb = surviving(b, f);
    if survives(x, f) {
        assert(surviving(one, f) =~= one);
        lemma_surviving_members(a, f);
        lemma_surviving_members(b, f);
        assert forall|k: int| 0 <= k < fa.len() implies entry_before(#[trigger] fa[k], x) by {
            let j = choose|j: int| 0 <= j < a.len() && a[j] == fa[k];
            assert(a[j] == t[j]);
        }
        if fb.len() > 0 {
            let j = choose|j: int| 0 <= j < b.len() && b[j] == fb[0];
            assert(b[j] == t[p + j]);
            if j > 0 {
                assert(!entry_before(t[p + j], t[p]));
                lemma_entry_order_transitive(x, t[p], t[p + j]);
            }
        }
        lemma_insert_point_split(fa, fb, x);
        assert(surviving(t, f).insert(fa.len() as int, x) =~= (fa + one) + fb);
    } else {
        assert(surviving(one, f) =~= Seq::<EntryView>::empty());
        assert(fa + Seq::<EntryView>::empty() =~= fa);
    }
}

/// Leaving entries out and sorting may be done in either order: the shown
/// entries of a sorted listing are the sorted shown entries of the listing.
pub proof fn lemma_surviving_of_sorted(s: Seq<EntryView>, f: FiltersView)
    ensures
        surviving(sorted_entries(s), f) == sorted_entries(surviving(s, f)),
    decreases s.len(),
{
    if s.len() == 0 {
        assert(surviving(s, f) =~= s);
    } else {
        let x = s[0];
        let rest = s.drop_first();
        let one = seq![x];
        lemma_surviving_of_sorted(rest, f);
        lemma_sorted_entries_ordered(rest);
        lemma_surviving_insert(sorted_entries(rest), x, f);
        assert(s =~= one + rest);
        lemma_surviving_concat(one, rest, f);
        assert(one.drop_last() =~= Seq::<EntryView>::empty());
        assert(surviving(one.drop_last(), f) =~= Seq::<EntryView>::empty());
        if survives(x, f) {
            assert(surviving(one, f) =~= one);
            assert((one + surviving(rest, f)).drop_first() =~= surviving(rest, f));
            assert((one + surviving(rest, f))[0] == x);
        } else {
            assert(surviving(one, f) =~= Seq::<EntryView>::empty());
            assert(Seq::<EntryView>::empty() + surviving(rest, f) =~= surviving(rest, f));
        }
    }
}

/// Filters that show the entries of one kind and name, and no others.
pub open spec fn only(is_directory: bool, name: Seq<char>) -> FiltersView {
    FiltersView {
        skip_dirs: Set::new(|n: Seq<char>| !is_directory || n != name),
        skip_files: Set::new(|n: Seq<char>| n != name),
        show_files: !is_directory,
    }
}

proof fn lemma_sorted_of_alike(s: Seq<EntryView>)
    requires
        forall|i: int, j: int|
            0 <= i < s.len() && 0 <= j < s.len() ==> !entry_before(#[trigger] s[i], #[trigger] s[j]),
    ensures
        sorted_entries(s) == s,
    decreases s.len(),
{
    if s.len() > 0 {
        let rest = s.drop_first();
        assert forall|i: int, j: int| 0 <= i < rest.len() && 0 <= j < rest.len() implies !entry_before(
            #[trigger] rest[i],
            #[trigger] rest[j],
        ) by {
            assert(rest[i] == s[i + 1] && rest[j] == s[j + 1]);
        }
        lemma_sorted_of_alike(rest);
        if rest.len() > 0 {
            assert(rest[0] == s[1]);
            assert(!entry_before(s[1], s[0]));
        }
        assert(rest.insert(0, s[0]) =~= s);
    }
}

/// Sorting keeps entries of the same kind and name in the order they had:
/// what a listing holds of one kind and name, it holds in the same order
/// after sorting.
pub proof fn lemma_sort_is_stable(s: Seq<EntryView>, is_directory: bool, name: Seq<char>)
    ensures
        surviving(sorted_entries(s), only(is_directory, name)) == surviving(
            s,
            only(is_directory, name),
        ),
        forall|i: int|
            0 <= i < s.len() ==> (survives(#[trigger] s[i], only(is_directory, name)) <==> s[i].name
                == name && s[i].is_directory == is_directory),
{
    let f = only(is_directory, name);
    let part = surviving(s, f);
    lemma_surviving_of_sorted(s, f);
    lemma_surviving_members(s, f);
    assert forall|i: int, j: int| 0 <= i < part.len() && 0 <= j < part.len() implies !entry_before(
        #[trigger] part[i],
        #[trigger] part[j],
    ) by {
        assert(survives(part[i], f) && survives(part[j], f));
        lemma_name_order_total(name, name);
    }
    lemma_sorted_of_alike(part);
}

/// Filters that leave nothing out.
pub open spec fn show_all() -> FiltersView {
    FiltersView { skip_dirs: Set::empty(), skip_files: Set::empty(), show_files: true }
}

/// Under filters that leave nothing out every entry is shown.
pub proof fn lemma_show_all(s: Seq<EntryView>)
    ensures
        surviving(s, show_all()) == s,
    decreases s.len(),
{
    if s.len() > 0 {
        lemma_show_all(s.drop_last());
        assert(s.drop_last().push(s.last()) =~= s);
    }
}

/// Whether `name` occurs in `names`.
pub fn holds_name(names: &Vec<String>, name: &String) -> (r: bool)
    ensures
        r == name_set(names@).contains(name@),
{
    let mut i: usize = 0;
    while i < names.len()
        invariant
            0 <= i <= names@.len(),
            forall|k: int| 0 <= k < i ==> (#[trigger] names@[k])@ != name@,
        decreases names@.len() - i,
    {
        if names[i] == *name {
            return true;
        }
        i = i + 1;
    }
    false
}

/// Whether an entry is shown under the filters.
pub fn is_shown(entry: &DirectoryEntry, filters: &Filters) -> (r: bool)
    ensures
        r == survives(entry@, filters@),
{
    if entry.is_directory {
        !holds_name(&filters.skip_dirs, &entry.name)
    } else {
        filters.show_files && !holds_name(&filters.skip_files, &entry.name)
    }
}

/// Keeps the entries that are shown under the filters, in their order.
pub fn retain_shown(entries: Vec<DirectoryEntry>, filters: &Filters) -> (kept: Vec<DirectoryEntry>)
    ensures
        entry_views(kept@) == surviving(entry_views(entries@), filters@),
{
    let ghost all = entry_views(entries@);
    let mut kept: Vec<DirectoryEntry> = Vec::new();
    assert(entry_views(kept@) =~= all.take(0));
    for entry in it: entries
        invariant
            entry_views(it.seq()) == all,
            entry_views(kept@) == surviving(all.take(it.index() as int), filters@),
    {
        let ghost n = it.index() as int;
        let ghost before = entry_views(kept@);
        proof {
            assert(all.take(n + 1).drop_last() =~= all.take(n));
            assert(all.take(n + 1).last() == entry@);
        }
        if is_shown(&entry, filters) {
            kept.push(entry);
            proof {
                assert(entry_views(kept@) =~= before.push(all[n]));
            }
        }
    }
    proof {
        assert(all.take(all.len() as int) =~= all);
    }
    kept
}

} // verus!
