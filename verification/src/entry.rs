//! Directory entries and the order in which the children of one directory
//! are listed: directories first, then files, each group by name.

use crate::names::{lemma_name_order_total, lemma_name_order_transitive, name_before, name_precedes};
use vstd::prelude::*;
use vstd::seq_lib::to_multiset_insert;

verus! {

/// One child of a directory.
pub struct DirectoryEntry {
    /// The final component of the child's path.
    pub name: String,
    /// Whether the child is a directory. A child whose kind could not be
    /// read counts as a file.
    pub is_directory: bool,
    /// The path under which the child is listed, if it is a directory.
    pub path: String,
}

/// What a [`DirectoryEntry`] holds.
pub struct EntryView {
    pub name: Seq<char>,
    pub is_directory: bool,
    pub path: Seq<char>,
}

impl View for DirectoryEntry {
    type V = EntryView;

    open spec fn view(&self) -> EntryView {
        EntryView { name: self.name@, is_directory: self.is_directory, path: self.path@ }
    }
}

/// The entries of a vector, each as what it holds.
pub open spec fn entry_views(s: Seq<DirectoryEntry>) -> Seq<EntryView> {
    s.map_values(|e: DirectoryEntry| e@)
}

/// Whether `x` is listed strictly before `y`: a directory before a file,
/// and within one kind the entry whose name comes first.
pub open spec fn entry_before(x: EntryView, y: EntryView) -> bool {
    if x.is_directory != y.is_directory {
        x.is_directory
    } else {
        name_before(x.name, y.name)
    }
}

/// No entry of `s` is listed strictly before an earlier one.
pub open spec fn ordered(s: Seq<EntryView>) -> bool {
    forall|i: int, j: int| 0 <= i < j < s.len() ==> !entry_before(#[trigger] s[j], #[trigger] s[i])
}

/// The number of leading entries of `s` that are listed strictly before `x`.
pub open spec fn insert_point(s: Seq<EntryView>, x: EntryView) -> int
    decreases s.len(),
{
    if s.len() == 0 || !entry_before(s[0], x) {
        0
    } else {
        1 + insert_point(s.drop_first(), x)
    }
}

/// The entries of `s` in listing order. Entries of which neither is listed
/// before the other keep the order they had in `s`.
pub open spec fn sorted_entries(s: Seq<EntryView>) -> Seq<EntryView>
    decreases s.len(),
{
    if s.len() == 0 {
        s
    } else {
        let rest = sorted_entries(s.drop_first());
        rest.insert(insert_point(rest, s[0]), s[0])
    }
}

/// If `y` is not listed before `x`, and `z` not before `y`, then `z` is not
/// listed before `x`.
pub proof fn lemma_entry_order_transitive(x: EntryView, y: EntryView, z: EntryView)
    requires
        !entry_before(y, x),
        !entry_before(z, y),
    ensures
        !entry_before(z, x),
{
    if x.is_directory == y.is_directory && y.is_directory == z.is_directory {
        lemma_name_order_transitive(x.name, y.name, z.name);
    }
}

/// Of two entries, at most one is listed strictly before the other.
pub proof fn lemma_entry_order_asymmetric(x: EntryView, y: EntryView)
    requires
        entry_before(x, y),
    ensures
        !entry_before(y, x),
{
    if x.is_directory == y.is_directory {
        lemma_name_order_total(x.name, y.name);
    }
}

/// The entries before the place where `x` is put are listed before `x`,
/// and the entry at that place is not.
pub proof fn lemma_insert_point_bounds(s: Seq<EntryView>, x: EntryView)
    ensures
        0 <= insert_point(s, x) <= s.len(),
        forall|k: int| 0 <= k < insert_point(s, x) ==> entry_before(#[trigger] s[k], x),
        insert_point(s, x) < s.len() ==> !entry_before(s[insert_point(s, x)], x),
    decreases s.len(),
{
    if s.len() == 0 || !entry_before(s[0], x) {
    } else {
        let t = s.drop_first();
        lemma_insert_point_bounds(t, x);
        assert forall|k: int| 0 <= k < insert_point(s, x) implies entry_before(
            #[trigger] s[k],
            x,
        ) by {
            if k > 0 {
                assert(s[k] == t[k - 1]);
            }
        }
    }
}

proof fn lemma_insert_keeps_order(s: Seq<EntryView>, x: EntryView)
    requires
        ordered(s),
    ensures
        ordered(s.insert(insert_point(s, x), x)),
{
    let p = insert_point(s, x);
    let t = s.insert(p, x);
    lemma_insert_point_bounds(s, x);
    assert forall|i: int, j: int| 0 <= i < j < t.len() implies !entry_before(
        #[trigger] t[j],
        #[trigger] t[i],
    ) by {
        if j == p {
            assert(t[i] == s[i]);
            lemma_entry_order_asymmetric(s[i], x);
        } else if i == p {
            assert(t[j] == s[j - 1]);
            if j - 1 > p {
                assert(!entry_before(s[j - 1], s[p]));
                lemma_entry_order_transitive(x, s[p], s[j - 1]);
            }
        } else {
            let a = if i < p { i } else { i - 1 };
            let b = if j < p { j } else { j - 1 };
            assert(t[i] == s[a] && t[j] == s[b]);
        }
    }
}

/// The listing order holds between any two entries of a sorted sequence:
/// no file stands before a directory, and within one kind no name stands
/// before a name that comes before it.
pub proof fn lemma_sorted_entries_ordered(s: Seq<EntryView>)
    ensures
        ordered(sorted_entries(s)),
        forall|i: int, j: int|
            0 <= i < j < sorted_entries(s).len() ==> {
                let a = #[trigger] sorted_entries(s)[i];
                let b = #[trigger] sorted_entries(s)[j];
                &&& (b.is_directory ==> a.is_directory)
                &&& (a.is_directory == b.is_directory ==> !name_before(b.name, a.name))
            },
    decreases s.len(),
{
    if s.len() > 0 {
        let rest = sorted_entries(s.drop_first());
        lemma_sorted_entries_ordered(s.drop_first());
        lemma_insert_keeps_order(rest, s[0]);
    }
    let out = sorted_entries(s);
    assert forall|i: int, j: int| 0 <= i < j < out.len() implies {
        let a = #[trigger] out[i];
        let b = #[trigger] out[j];
        &&& (b.is_directory ==> a.is_directory)
        &&& (a.is_directory == b.is_directory ==> !name_before(b.name, a.name))
    } by {
        assert(!entry_before(out[j], out[i]));
    }
}

/// Sorting neither drops nor adds an entry: every entry occurs in the result
/// as often as in the input.
pub proof fn lemma_sorted_entries_permutes(s: Seq<EntryView>)
    ensures
        sorted_entries(s).to_multiset() == s.to_multiset(),
        sorted_entries(s).len() == s.len(),
    decreases s.len(),
{
    if s.len() > 0 {
        let rest = sorted_entries(s.drop_first());
        lemma_sorted_entries_permutes(s.drop_first());
        lemma_insert_point_bounds(rest, s[0]);
        to_multiset_insert(rest, insert_point(rest, s[0]), s[0]);
        to_multiset_insert(s.drop_first(), 0, s[0]);
        assert(s.drop_first().insert(0, s[0]) =~= s);
    }
}

/// Whether `x` is listed strictly before `y`.
pub fn entry_precedes(x: &DirectoryEntry, y: &DirectoryEntry) -> (r: bool)
    ensures
        r == entry_before(x@, y@),
{
    if x.is_directory != y.is_directory {
        x.is_directory
    } else {
        name_precedes(x.name.as_str(), y.name.as_str())
    }
}

/// Puts the children of one directory into listing order: directories
/// first, then files, each group ascending by name.
pub fn sort_entries(entries: Vec<DirectoryEntry>) -> (sorted: Vec<DirectoryEntry>)
    ensures
        entry_views(sorted@) == sorted_entries(entry_views(entries@)),
{
    let ghost all = entry_views(entries@);
    let mut rest = entries;
    let mut sorted: Vec<DirectoryEntry> = Vec::new();
    assert(all.skip(all.len() as int) =~= Seq::<EntryView>::empty());
    assert(entry_views(sorted@) =~= Seq::<EntryView>::empty());
    while rest.len() > 0
        invariant
            rest@.len() <= all.len(),
            entry_views(rest@) == all.take(rest@.len() as int),
            entry_views(sorted@) == sorted_entries(all.skip(rest@.len() as int)),
        decreases rest@.len(),
    {
        let ghost before = rest@;
        let ghost done = entry_views(sorted@);
        let next = rest.pop().unwrap();
        let ghost k = rest@.len() as int;
        proof {
            assert(entry_views(before)[k] == next@);
            assert(all[k] == next@);
            assert(entry_views(rest@) =~= all.take(k));
            assert(all.skip(k)[0] == next@);
            assert(all.skip(k).drop_first() =~= all.skip(k + 1));
            lemma_insert_point_bounds(done, next@);
            assert(done.skip(0) =~= done);
        }
        let mut at: usize = 0;
        while at < sorted.len() && entry_precedes(&sorted[at], &next)
            invariant
                0 <= at <= sorted@.len(),
                done == entry_views(sorted@),
                insert_point(done, next@) == at + insert_point(done.skip(at as int), next@),
            decreases sorted@.len() - at,
        {
            proof {
                assert(done.skip(at as int)[0] == sorted@[at as int]@);
                assert(done.skip(at as int).drop_first() =~= done.skip(at + 1));
            }
            at = at + 1;
        }
        proof {
            if at < sorted@.len() {
                assert(done.skip(at as int)[0] == sorted@[at as int]@);
            }
            assert(insert_point(done, next@) == at);
        }
        sorted.insert(at, next);
        proof {
            assert(entry_views(sorted@) =~= done.insert(at as int, next@));
        }
    }
    proof {
        assert(all.skip(0) =~= all);
    }
    sorted
}

} // verus!
