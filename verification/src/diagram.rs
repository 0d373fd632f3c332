//! The whole diagram of a directory tree, and why a traversal writes it.
//!
//! A [`FileSystem`] says what reading each path gives. [`diagram`] is the
//! text that belongs to a root under it. The laws at the end of this file
//! say that a [`crate::render::Renderer`] which is handed, for each path it
//! awaits, what the file system gives for it, writes the lines of the
//! diagram in order, and stops after the last.

use crate::entry::{lemma_sorted_entries_permutes, sorted_entries, EntryView};
use crate::filter::{
    lemma_show_all, lemma_surviving_members, lemma_surviving_of_sorted, show_all, survives,
    surviving, FiltersView,
};
use crate::line::{failure_line, group_lines, header_of, line_of, prefix_below};
use crate::render::{
    after_line, after_listing, initial_state, line_now, listing_line, settled, FrameView,
    ListingView, RendererView,
};
use vstd::prelude::*;
use vstd::seq_lib::to_multiset_contains;

verus! {

/// What reading each path gives, with a rank that shows that no directory
/// lies below itself.
pub struct FileSystem {
    pub list: spec_fn(Seq<char>) -> ListingView,
    pub rank: spec_fn(Seq<char>) -> nat,
}

/// The children that reading a path gives; none where it cannot be read.
pub open spec fn children(fs: FileSystem, path: Seq<char>) -> Seq<EntryView> {
    match (fs.list)(path) {
        ListingView::Entries(entries) => entries,
        ListingView::Failed(_) => Seq::empty(),
    }
}

/// Whether each directory has a smaller rank than the directory that lists
/// it: the hierarchy has no cycle and no endless descent.
pub open spec fn acyclic(fs: FileSystem) -> bool {
    forall|path: Seq<char>, i: int|
        0 <= i < children(fs, path).len() && (#[trigger] children(fs, path)[i]).is_directory ==> (
        fs.rank)(children(fs, path)[i].path) < (fs.rank)(path)
}

/// A number above the rank of every directory among `entries`.
pub open spec fn rank_above(fs: FileSystem, entries: Seq<EntryView>) -> nat
    decreases entries.len(),
{
    if entries.len() == 0 {
        0
    } else {
        let below = rank_above(fs, entries.drop_last());
        let e = entries.last();
        if e.is_directory && (fs.rank)(e.path) >= below {
            (fs.rank)(e.path) + 1
        } else {
            below
        }
    }
}

/// The lines of the shown children `shown` of one directory from position
/// `i` on, each followed by the lines of what is below it. Only directories
/// of a rank below `bound` are entered.
pub open spec fn group_from(
    fs: FileSystem,
    filters: FiltersView,
    shown: Seq<EntryView>,
    i: int,
    prefix: Seq<char>,
    bound: nat,
) -> Seq<Seq<char>>
    decreases bound, 0nat, shown.len() - i,
{
    if i < 0 || i >= shown.len() {
        Seq::empty()
    } else {
        let e = shown[i];
        let last = i + 1 == shown.len();
        let below = if e.is_directory && (fs.rank)(e.path) < bound {
            dir_lines(fs, filters, e.path, prefix_below(prefix, last))
        } else {
            Seq::empty()
        };
        seq![line_of(prefix, last, e.name)] + below + group_from(
            fs,
            filters,
            shown,
            i + 1,
            prefix,
            bound,
        )
    }
}

/// The lines below a directory: those of its shown children in listing
/// order, each with the connector of its place among them and followed by
/// what is below it; or the one line that says that the directory could not
/// be read.
pub open spec fn dir_lines(
    fs: FileSystem,
    filters: FiltersView,
    path: Seq<char>,
    prefix: Seq<char>,
) -> Seq<Seq<char>>
    decreases (fs.rank)(path), 1nat, 0nat,
{
    match (fs.list)(path) {
        ListingView::Failed(message) => seq![failure_line(prefix, message)],
        ListingView::Entries(entries) => group_from(
            fs,
            filters,
            surviving(sorted_entries(entries), filters),
            0,
            prefix,
            (fs.rank)(path),
        ),
    }
}

/// The diagram of the directory at `root`: its base name, then what is
/// below it.
pub open spec fn diagram(
    fs: FileSystem,
    base_name: Option<Seq<char>>,
    root: Seq<char>,
    filters: FiltersView,
) -> Seq<Seq<char>> {
    seq![header_of(base_name)] + dir_lines(fs, filters, root, Seq::empty())
}

/// The lines that the directories being written still lack, the deepest
/// first.
pub open spec fn stack_lines(fs: FileSystem, filters: FiltersView, stack: Seq<FrameView>) -> Seq<
    Seq<char>,
>
    decreases stack.len(),
{
    if stack.len() == 0 {
        Seq::empty()
    } else {
        let f = stack.last();
        group_from(fs, filters, f.entries, f.next as int, f.prefix, rank_above(fs, f.entries))
            + stack_lines(fs, filters, stack.drop_last())
    }
}

/// The lines that a traversal in state `v` has not written yet.
pub open spec fn remaining(fs: FileSystem, v: RendererView) -> Seq<Seq<char>> {
    let below = match v.awaited {
        Some(a) => dir_lines(fs, v.filters, a.path, a.prefix),
        None => Seq::empty(),
    };
    below + stack_lines(fs, v.filters, v.stack)
}

/// The lines of an optional line: one or none.
pub open spec fn lines_of(line: Option<Seq<char>>) -> Seq<Seq<char>> {
    match line {
        Some(l) => seq![l],
        None => Seq::empty(),
    }
}

proof fn lemma_rank_above(fs: FileSystem, entries: Seq<EntryView>)
    ensures
        forall|i: int|
            0 <= i < entries.len() && (#[trigger] entries[i]).is_directory ==> (fs.rank)(
                entries[i].path,
            ) < rank_above(fs, entries),
    decreases entries.len(),
{
    if entries.len() > 0 {
        let head = entries.drop_last();
        lemma_rank_above(fs, head);
        assert forall|i: int| 0 <= i < entries.len() && (#[trigger] entries[i]).is_directory implies (
        fs.rank)(entries[i].path) < rank_above(fs, entries) by {
            if i < head.len() {
                assert(head[i] == entries[i]);
            }
        }
    }
}

proof fn lemma_group_bound(
    fs: FileSystem,
    filters: FiltersView,
    shown: Seq<EntryView>,
    i: int,
    prefix: Seq<char>,
    a: nat,
    b: nat,
)
    requires
        forall|k: int|
            0 <= k < shown.len() && (#[trigger] shown[k]).is_directory ==> (fs.rank)(shown[k].path)
                < a && (fs.rank)(shown[k].path) < b,
    ensures
        group_from(fs, filters, shown, i, prefix, a) == group_from(fs, filters, shown, i, prefix, b),
    decreases shown.len() - i,
{
    if 0 <= i < shown.len() {
        lemma_group_bound(fs, filters, shown, i + 1, prefix, a, b);
        assert(shown[i].is_directory ==> (fs.rank)(shown[i].path) < a);
    }
}

proof fn lemma_shown_are_children(fs: FileSystem, filters: FiltersView, path: Seq<char>)
    requires
        acyclic(fs),
    ensures
        forall|k: int|
            #![trigger surviving(sorted_entries(children(fs, path)), filters)[k]]
            0 <= k < surviving(sorted_entries(children(fs, path)), filters).len() && surviving(
                sorted_entries(children(fs, path)),
                filters,
            )[k].is_directory ==> (fs.rank)(
                surviving(sorted_entries(children(fs, path)), filters)[k].path,
            ) < (fs.rank)(path),
{
    let raw = children(fs, path);
    let sorted = sorted_entries(raw);
    let shown = surviving(sorted, filters);
    lemma_surviving_members(sorted, filters);
    lemma_sorted_entries_permutes(raw);
    assert forall|k: int| 0 <= k < shown.len() && (#[trigger] shown[k]).is_directory implies (
    fs.rank)(shown[k].path) < (fs.rank)(path) by {
        let e = shown[k];
        assert(sorted.contains(e));
        to_multiset_contains(sorted, e);
        to_multiset_contains(raw, e);
        assert(raw.contains(e));
        let j = choose|j: int| 0 <= j < raw.len() && raw[j] == e;
        assert(children(fs, path)[j].is_directory);
    }
}

proof fn lemma_settled_lines(fs: FileSystem, filters: FiltersView, stack: Seq<FrameView>)
    ensures
        stack_lines(fs, filters, settled(stack)) == stack_lines(fs, filters, stack),
        settled(stack).len() > 0 ==> settled(stack).last().next < settled(
            stack,
        ).last().entries.len(),
    decreases stack.len(),
{
    if stack.len() > 0 && stack.last().next >= stack.last().entries.len() {
        lemma_settled_lines(fs, filters, stack.drop_last());
        assert(stack_lines(fs, filters, stack) =~= stack_lines(fs, filters, stack.drop_last()));
    }
}

/// At the start the lines that are not written yet are the diagram without
/// its first line.
pub proof fn lemma_remaining_at_start(
    fs: FileSystem,
    base_name: Option<Seq<char>>,
    root: Seq<char>,
    filters: FiltersView,
)
    ensures
        diagram(fs, base_name, root, filters) == seq![header_of(base_name)] + remaining(
            fs,
            initial_state(root, filters),
        ),
{
    let v = initial_state(root, filters);
    assert(remaining(fs, v) =~= dir_lines(fs, filters, root, Seq::empty()));
}

/// Handing a traversal what the file system gives for the awaited path
/// writes the first of the lines not yet written, if the directory could
/// not be read, and leaves the others to be written.
pub proof fn lemma_remaining_after_listing(fs: FileSystem, v: RendererView)
    requires
        acyclic(fs),
        v.awaited is Some,
    ensures
        ({
            let listing = (fs.list)(v.awaited->0.path);
            remaining(fs, v) == lines_of(listing_line(v, listing)) + remaining(
                fs,
                after_listing(v, listing),
            )
        }),
{
    let a = v.awaited->0;
    let listing = (fs.list)(a.path);
    let w = after_listing(v, listing);
    let rest = stack_lines(fs, v.filters, v.stack);
    match listing {
        ListingView::Failed(message) => {
            assert(remaining(fs, w) =~= rest);
        },
        ListingView::Entries(entries) => {
            let shown = surviving(sorted_entries(entries), v.filters);
            assert(children(fs, a.path) == entries);
            lemma_shown_are_children(fs, v.filters, a.path);
            lemma_rank_above(fs, shown);
            lemma_group_bound(
                fs,
                v.filters,
                shown,
                0,
                a.prefix,
                (fs.rank)(a.path),
                rank_above(fs, shown),
            );
            assert(w.stack.drop_last() =~= v.stack);
            assert(remaining(fs, w) =~= group_from(
                fs,
                v.filters,
                shown,
                0,
                a.prefix,
                rank_above(fs, shown),
            ) + rest);
            assert(lines_of(listing_line(v, listing)) + remaining(fs, w) =~= remaining(fs, w));
        },
    }
}

/// While no listing is awaited, the next line of a traversal is the first
/// of the lines not yet written, and the others are left to be written;
/// the traversal gives no line only when none is left.
pub proof fn lemma_remaining_after_line(fs: FileSystem, v: RendererView)
    requires
        v.awaited is None,
    ensures
        remaining(fs, v) == lines_of(line_now(v)) + remaining(fs, after_line(v)),
        line_now(v) is None ==> remaining(fs, v).len() == 0,
{
    let s = settled(v.stack);
    let w = after_line(v);
    lemma_settled_lines(fs, v.filters, v.stack);
    assert(remaining(fs, v) =~= stack_lines(fs, v.filters, s));
    if s.len() == 0 {
        assert(remaining(fs, w) =~= Seq::<Seq<char>>::empty());
    } else {
        let f = s.last();
        let e = f.entries[f.next as int];
        let last = f.next + 1 == f.entries.len();
        let bound = rank_above(fs, f.entries);
        let rest = stack_lines(fs, v.filters, s.drop_last());
        let tail = group_from(fs, v.filters, f.entries, (f.next + 1) as int, f.prefix, bound);
        lemma_rank_above(fs, f.entries);
        let below = if e.is_directory {
            dir_lines(fs, v.filters, e.path, prefix_below(f.prefix, last))
        } else {
            Seq::empty()
        };
        assert(group_from(fs, v.filters, f.entries, f.next as int, f.prefix, bound) == seq![
            line_of(f.prefix, last, e.name),
        ] + below + tail);
        assert(w.stack.drop_last() =~= s.drop_last());
        assert(w.stack.last().entries == f.entries);
        assert(stack_lines(fs, v.filters, w.stack) == tail + rest);
        assert(remaining(fs, w) =~= below + (tail + rest));
        assert(remaining(fs, v) =~= seq![line_of(f.prefix, last, e.name)] + (below + (tail + rest)));
    }
}

/// The state of a traversal after `steps` steps, each of which hands it
/// what the file system gives for the awaited path or, where none is
/// awaited, takes its next line. A traversal that has no line left stays as
/// it is.
pub open spec fn state_after(fs: FileSystem, v: RendererView, steps: nat) -> RendererView
    decreases steps,
{
    if steps == 0 {
        v
    } else if v.awaited is Some {
        state_after(fs, after_listing(v, (fs.list)(v.awaited->0.path)), (steps - 1) as nat)
    } else if line_now(v) is Some {
        state_after(fs, after_line(v), (steps - 1) as nat)
    } else {
        v
    }
}

/// The lines that a traversal writes in its next `steps` steps.
pub open spec fn written(fs: FileSystem, v: RendererView, steps: nat) -> Seq<Seq<char>>
    decreases steps,
{
    if steps == 0 {
        Seq::empty()
    } else if v.awaited is Some {
        let listing = (fs.list)(v.awaited->0.path);
        lines_of(listing_line(v, listing)) + written(
            fs,
            after_listing(v, listing),
            (steps - 1) as nat,
        )
    } else if line_now(v) is Some {
        lines_of(line_now(v)) + written(fs, after_line(v), (steps - 1) as nat)
    } else {
        Seq::empty()
    }
}

/// Whether a traversal is complete: no listing is awaited and no line is
/// left.
pub open spec fn complete(v: RendererView) -> bool {
    v.awaited is None && line_now(v) is None
}

/// After any number of steps, the lines written so far and the lines not
/// yet written make up the lines that were not written before.
pub proof fn lemma_written_then_remaining(fs: FileSystem, v: RendererView, steps: nat)
    requires
        acyclic(fs),
    ensures
        remaining(fs, v) == written(fs, v, steps) + remaining(fs, state_after(fs, v, steps)),
    decreases steps,
{
    if steps == 0 {
        assert(remaining(fs, v) =~= written(fs, v, steps) + remaining(fs, v));
    } else if v.awaited is Some {
        let listing = (fs.list)(v.awaited->0.path);
        let w = after_listing(v, listing);
        lemma_remaining_after_listing(fs, v);
        lemma_written_then_remaining(fs, w, (steps - 1) as nat);
        assert(remaining(fs, v) =~= written(fs, v, steps) + remaining(
            fs,
            state_after(fs, v, steps),
        ));
    } else if line_now(v) is Some {
        let w = after_line(v);
        lemma_remaining_after_line(fs, v);
        lemma_written_then_remaining(fs, w, (steps - 1) as nat);
        assert(remaining(fs, v) =~= written(fs, v, steps) + remaining(
            fs,
            state_after(fs, v, steps),
        ));
    } else {
        lemma_remaining_after_line(fs, v);
        assert(remaining(fs, v) =~= written(fs, v, steps) + remaining(fs, v));
    }
}

/// A traversal that is complete after some number of steps has written,
/// after the first line, exactly the diagram of its root: every line of it,
/// in order, and nothing else.
pub proof fn lemma_complete_traversal(
    fs: FileSystem,
    base_name: Option<Seq<char>>,
    root: Seq<char>,
    filters: FiltersView,
    steps: nat,
)
    requires
        acyclic(fs),
        complete(state_after(fs, initial_state(root, filters), steps)),
    ensures
        diagram(fs, base_name, root, filters) == seq![header_of(base_name)] + written(
            fs,
            initial_state(root, filters),
            steps,
        ),
{
    let v = initial_state(root, filters);
    let end = state_after(fs, v, steps);
    lemma_remaining_at_start(fs, base_name, root, filters);
    lemma_written_then_remaining(fs, v, steps);
    lemma_remaining_after_line(fs, end);
    assert(remaining(fs, v) =~= written(fs, v, steps));
}

proof fn lemma_group_same(
    fs: FileSystem,
    other: FileSystem,
    filters: FiltersView,
    shown: Seq<EntryView>,
    i: int,
    prefix: Seq<char>,
    a: nat,
    b: nat,
)
    requires
        acyclic(fs),
        acyclic(other),
        fs.list == other.list,
        forall|k: int|
            0 <= k < shown.len() && (#[trigger] shown[k]).is_directory ==> (fs.rank)(shown[k].path)
                < a && (other.rank)(shown[k].path) < b,
    ensures
        group_from(fs, filters, shown, i, prefix, a) == group_from(
            other,
            filters,
            shown,
            i,
            prefix,
            b,
        ),
    decreases a, 0nat, shown.len() - i,
{
    if 0 <= i < shown.len() {
        let e = shown[i];
        if e.is_directory {
            lemma_diagram_below_same(fs, other, filters, e.path, prefix_below(prefix, i + 1 == shown.len()));
        }
        lemma_group_same(fs, other, filters, shown, i + 1, prefix, a, b);
    }
}

proof fn lemma_diagram_below_same(
    fs: FileSystem,
    other: FileSystem,
    filters: FiltersView,
    path: Seq<char>,
    prefix: Seq<char>,
)
    requires
        acyclic(fs),
        acyclic(other),
        fs.list == other.list,
    ensures
        dir_lines(fs, filters, path, prefix) == dir_lines(other, filters, path, prefix),
    decreases (fs.rank)(path), 1nat, 0nat,
{
    match (fs.list)(path) {
        ListingView::Failed(_) => {},
        ListingView::Entries(entries) => {
            let shown = surviving(sorted_entries(entries), filters);
            assert(children(fs, path) == entries);
            assert(children(other, path) == entries);
            lemma_shown_are_children(fs, filters, path);
            lemma_shown_are_children(other, filters, path);
            lemma_group_same(
                fs,
                other,
                filters,
                shown,
                0,
                prefix,
                (fs.rank)(path),
                (other.rank)(path),
            );
        },
    }
}

/// The diagram of a root is settled by the root's base name, by what
/// reading each path gives, and by the filters as sets of names: two file
/// systems that give the same for every path have the same diagram.
pub proof fn lemma_diagram_determined(
    fs: FileSystem,
    other: FileSystem,
    base_name: Option<Seq<char>>,
    root: Seq<char>,
    filters: FiltersView,
)
    requires
        acyclic(fs),
        acyclic(other),
        fs.list == other.list,
    ensures
        diagram(fs, base_name, root, filters) == diagram(other, base_name, root, filters),
        diagram(fs, base_name, root, filters)[0] == header_of(base_name),
{
    lemma_diagram_below_same(fs, other, filters, root, Seq::empty());
}

/// The number of steps that the shown children `shown` of one directory
/// take from position `i` on: one for each line, and those of what is below
/// each directory. Only directories of a rank below `bound` are counted.
pub open spec fn group_steps(
    fs: FileSystem,
    filters: FiltersView,
    shown: Seq<EntryView>,
    i: int,
    bound: nat,
) -> nat
    decreases bound, 0nat, shown.len() - i,
{
    if i < 0 || i >= shown.len() {
        0
    } else {
        let e = shown[i];
        let below = if e.is_directory && (fs.rank)(e.path) < bound {
            dir_steps(fs, filters, e.path)
        } else {
            0
        };
        1 + below + group_steps(fs, filters, shown, i + 1, bound)
    }
}

/// The number of steps that a directory takes: one for its listing, and
/// those of its shown children.
pub open spec fn dir_steps(fs: FileSystem, filters: FiltersView, path: Seq<char>) -> nat
    decreases (fs.rank)(path), 1nat, 0nat,
{
    match (fs.list)(path) {
        ListingView::Failed(_) => 1,
        ListingView::Entries(entries) => 1 + group_steps(
            fs,
            filters,
            surviving(sorted_entries(entries), filters),
            0,
            (fs.rank)(path),
        ),
    }
}

/// The number of steps that the directories being written still take.
pub open spec fn stack_steps(fs: FileSystem, filters: FiltersView, stack: Seq<FrameView>) -> nat
    decreases stack.len(),
{
    if stack.len() == 0 {
        0
    } else {
        let f = stack.last();
        group_steps(fs, filters, f.entries, f.next as int, rank_above(fs, f.entries)) + stack_steps(
            fs,
            filters,
            stack.drop_last(),
        )
    }
}

/// The number of steps after which a traversal in state `v` is complete.
pub open spec fn steps_left(fs: FileSystem, v: RendererView) -> nat {
    let below = match v.awaited {
        Some(a) => dir_steps(fs, v.filters, a.path),
        None => 0,
    };
    below + stack_steps(fs, v.filters, v.stack)
}

proof fn lemma_group_steps_bound(
    fs: FileSystem,
    filters: FiltersView,
    shown: Seq<EntryView>,
    i: int,
    a: nat,
    b: nat,
)
    requires
        forall|k: int|
            0 <= k < shown.len() && (#[trigger] shown[k]).is_directory ==> (fs.rank)(shown[k].path)
                < a && (fs.rank)(shown[k].path) < b,
    ensures
        group_steps(fs, filters, shown, i, a) == group_steps(fs, filters, shown, i, b),
    decreases shown.len() - i,
{
    if 0 <= i < shown.len() {
        lemma_group_steps_bound(fs, filters, shown, i + 1, a, b);
        assert(shown[i].is_directory ==> (fs.rank)(shown[i].path) < a);
    }
}

proof fn lemma_settled_steps(fs: FileSystem, filters: FiltersView, stack: Seq<FrameView>)
    ensures
        stack_steps(fs, filters, settled(stack)) == stack_steps(fs, filters, stack),
        settled(stack).len() > 0 ==> settled(stack).last().next < settled(
            stack,
        ).last().entries.len(),
    decreases stack.len(),
{
    if stack.len() > 0 && stack.last().next >= stack.last().entries.len() {
        lemma_settled_steps(fs, filters, stack.drop_last());
    }
}

proof fn lemma_steps_left(fs: FileSystem, v: RendererView)
    requires
        acyclic(fs),
    ensures
        v.awaited is Some ==> steps_left(fs, v) == 1 + steps_left(
            fs,
            after_listing(v, (fs.list)(v.awaited->0.path)),
        ),
        v.awaited is None && line_now(v) is Some ==> steps_left(fs, v) == 1 + steps_left(
            fs,
            after_line(v),
        ),
        complete(v) <==> steps_left(fs, v) == 0,
{
    if v.awaited is Some {
        let a = v.awaited->0;
        let listing = (fs.list)(a.path);
        let w = after_listing(v, listing);
        match listing {
            ListingView::Failed(_) => {},
            ListingView::Entries(entries) => {
                let shown = surviving(sorted_entries(entries), v.filters);
                assert(children(fs, a.path) == entries);
                lemma_shown_are_children(fs, v.filters, a.path);
                lemma_rank_above(fs, shown);
                lemma_group_steps_bound(
                    fs,
                    v.filters,
                    shown,
                    0,
                    (fs.rank)(a.path),
                    rank_above(fs, shown),
                );
                assert(w.stack.drop_last() =~= v.stack);
            },
        }
    } else {
        let s = settled(v.stack);
        let w = after_line(v);
        lemma_settled_steps(fs, v.filters, v.stack);
        if s.len() > 0 {
            let f = s.last();
            lemma_rank_above(fs, f.entries);
            assert(w.stack.drop_last() =~= s.drop_last());
            assert(w.stack.last().entries == f.entries);
        }
    }
}

proof fn lemma_completes_within(fs: FileSystem, v: RendererView, steps: nat)
    requires
        acyclic(fs),
        steps_left(fs, v) <= steps,
    ensures
        complete(state_after(fs, v, steps)),
    decreases steps,
{
    lemma_steps_left(fs, v);
    if steps == 0 {
    } else if v.awaited is Some {
        lemma_completes_within(
            fs,
            after_listing(v, (fs.list)(v.awaited->0.path)),
            (steps - 1) as nat,
        );
    } else if line_now(v) is Some {
        lemma_completes_within(fs, after_line(v), (steps - 1) as nat);
    }
}

/// Where no directory lies below itself, a traversal that is handed what
/// the file system gives for each path it awaits is complete after finitely
/// many steps, and has then written, after the first line, exactly the
/// diagram of its root.
pub proof fn lemma_traversal_writes_diagram(
    fs: FileSystem,
    base_name: Option<Seq<char>>,
    root: Seq<char>,
    filters: FiltersView,
)
    requires
        acyclic(fs),
    ensures
        ({
            let start = initial_state(root, filters);
            let steps = steps_left(fs, start);
            &&& complete(state_after(fs, start, steps))
            &&& diagram(fs, base_name, root, filters) == seq![header_of(base_name)] + written(
                fs,
                start,
                steps,
            )
        }),
{
    let start = initial_state(root, filters);
    lemma_completes_within(fs, start, steps_left(fs, start));
    lemma_complete_traversal(fs, base_name, root, filters, steps_left(fs, start));
}

/// The file system without the entries that the filters leave out.
pub open spec fn pruned(fs: FileSystem, filters: FiltersView) -> FileSystem {
    FileSystem {
        list: |path: Seq<char>|
            match (fs.list)(path) {
                ListingView::Entries(entries) => ListingView::Entries(surviving(entries, filters)),
                ListingView::Failed(message) => ListingView::Failed(message),
            },
        rank: fs.rank,
    }
}

proof fn lemma_group_pruned(
    fs: FileSystem,
    filters: FiltersView,
    shown: Seq<EntryView>,
    i: int,
    prefix: Seq<char>,
    bound: nat,
)
    ensures
        group_from(fs, filters, shown, i, prefix, bound) == group_from(
            pruned(fs, filters),
            show_all(),
            shown,
            i,
            prefix,
            bound,
        ),
    decreases bound, 0nat, shown.len() - i,
{
    if 0 <= i < shown.len() {
        let e = shown[i];
        if e.is_directory && (fs.rank)(e.path) < bound {
            lemma_pruned_below(fs, filters, e.path, prefix_below(prefix, i + 1 == shown.len()));
        }
        lemma_group_pruned(fs, filters, shown, i + 1, prefix, bound);
    }
}

proof fn lemma_pruned_below(
    fs: FileSystem,
    filters: FiltersView,
    path: Seq<char>,
    prefix: Seq<char>,
)
    ensures
        dir_lines(fs, filters, path, prefix) == dir_lines(
            pruned(fs, filters),
            show_all(),
            path,
            prefix,
        ),
    decreases (fs.rank)(path), 1nat, 0nat,
{
    match (fs.list)(path) {
        ListingView::Failed(_) => {},
        ListingView::Entries(entries) => {
            let shown = surviving(sorted_entries(entries), filters);
            lemma_surviving_of_sorted(entries, filters);
            lemma_show_all(sorted_entries(surviving(entries, filters)));
            lemma_group_pruned(fs, filters, shown, 0, prefix, (fs.rank)(path));
        },
    }
}

/// No entry that the filters leave out appears in the diagram, nor anything
/// below it: the diagram under the filters is the diagram, with nothing
/// left out, of the file system without those entries.
pub proof fn lemma_diagram_of_pruned(
    fs: FileSystem,
    base_name: Option<Seq<char>>,
    root: Seq<char>,
    filters: FiltersView,
)
    ensures
        diagram(fs, base_name, root, filters) == diagram(
            pruned(fs, filters),
            base_name,
            root,
            show_all(),
        ),
        forall|path: Seq<char>, i: int|
            0 <= i < children(pruned(fs, filters), path).len() ==> survives(
                #[trigger] children(pruned(fs, filters), path)[i],
                filters,
            ),
        acyclic(fs) ==> acyclic(pruned(fs, filters)),
{
    lemma_pruned_below(fs, filters, root, Seq::empty());
    let cut = pruned(fs, filters);
    assert forall|path: Seq<char>, i: int| 0 <= i < children(cut, path).len() implies survives(
        #[trigger] children(cut, path)[i],
        filters,
    ) && (acyclic(fs) && children(cut, path)[i].is_directory ==> (cut.rank)(
        children(cut, path)[i].path,
    ) < (cut.rank)(path)) by {
        let raw = children(fs, path);
        assert(children(cut, path) == surviving(raw, filters));
        lemma_surviving_members(raw, filters);
        let e = children(cut, path)[i];
        assert(raw.contains(e));
        let j = choose|j: int| 0 <= j < raw.len() && raw[j] == e;
        assert(children(fs, path)[j] == e);
    }
}

/// Whether a line begins with an indentation.
pub open spec fn indented_by(line: Seq<char>, prefix: Seq<char>) -> bool {
    prefix.len() <= line.len() && line.take(prefix.len() as int) == prefix
}

proof fn lemma_group_indented(
    fs: FileSystem,
    filters: FiltersView,
    shown: Seq<EntryView>,
    i: int,
    prefix: Seq<char>,
    bound: nat,
    k: int,
)
    requires
        0 <= k < group_from(fs, filters, shown, i, prefix, bound).len(),
    ensures
        indented_by(group_from(fs, filters, shown, i, prefix, bound)[k], prefix),
    decreases bound, 0nat, shown.len() - i,
{
    let e = shown[i];
    let last = i + 1 == shown.len();
    let first = line_of(prefix, last, e.name);
    let inner = prefix_below(prefix, last);
    let below = if e.is_directory && (fs.rank)(e.path) < bound {
        dir_lines(fs, filters, e.path, inner)
    } else {
        Seq::empty()
    };
    let tail = group_from(fs, filters, shown, i + 1, prefix, bound);
    let all = group_from(fs, filters, shown, i, prefix, bound);
    assert(all == seq![first] + below + tail);
    if k == 0 {
        assert(first.take(prefix.len() as int) =~= prefix);
    } else if k - 1 < below.len() {
        lemma_below_indented(fs, filters, e.path, inner, k - 1);
        assert(all[k] == below[k - 1]);
        assert(inner.take(prefix.len() as int) =~= prefix);
        assert(all[k].take(prefix.len() as int) =~= all[k].take(inner.len() as int).take(
            prefix.len() as int,
        ));
    } else {
        lemma_group_indented(fs, filters, shown, i + 1, prefix, bound, k - 1 - below.len());
        assert(all[k] == tail[k - 1 - below.len()]);
    }
}

proof fn lemma_below_indented(
    fs: FileSystem,
    filters: FiltersView,
    path: Seq<char>,
    prefix: Seq<char>,
    k: int,
)
    requires
        0 <= k < dir_lines(fs, filters, path, prefix).len(),
    ensures
        indented_by(dir_lines(fs, filters, path, prefix)[k], prefix),
    decreases (fs.rank)(path), 1nat, 0nat,
{
    match (fs.list)(path) {
        ListingView::Failed(message) => {
            assert(failure_line(prefix, message).take(prefix.len() as int) =~= prefix);
        },
        ListingView::Entries(entries) => {
            lemma_group_indented(
                fs,
                filters,
                surviving(sorted_entries(entries), filters),
                0,
                prefix,
                (fs.rank)(path),
                k,
            );
        },
    }
}

/// Every line below a directory begins with the indentation of the
/// directory's children: the lines of the children themselves go on with a
/// connector, the lines further down with one more segment for each level.
pub proof fn lemma_lines_below_indented(
    fs: FileSystem,
    filters: FiltersView,
    path: Seq<char>,
    prefix: Seq<char>,
)
    ensures
        forall|k: int|
            0 <= k < dir_lines(fs, filters, path, prefix).len() ==> indented_by(
                #[trigger] dir_lines(fs, filters, path, prefix)[k],
                prefix,
            ),
{
    assert forall|k: int| 0 <= k < dir_lines(fs, filters, path, prefix).len() implies indented_by(
        #[trigger] dir_lines(fs, filters, path, prefix)[k],
        prefix,
    ) by {
        lemma_below_indented(fs, filters, path, prefix, k);
    }
}

/// The names of entries.
pub open spec fn names_of(entries: Seq<EntryView>) -> Seq<Seq<char>> {
    entries.map_values(|e: EntryView| e.name)
}

proof fn lemma_flat_group(
    fs: FileSystem,
    filters: FiltersView,
    shown: Seq<EntryView>,
    i: int,
    prefix: Seq<char>,
    bound: nat,
)
    requires
        0 <= i <= shown.len(),
        forall|k: int| 0 <= k < shown.len() ==> !(#[trigger] shown[k]).is_directory,
    ensures
        group_from(fs, filters, shown, i, prefix, bound) == group_lines(
            prefix,
            names_of(shown),
        ).skip(i),
    decreases shown.len() - i,
{
    let all = group_lines(prefix, names_of(shown));
    if i < shown.len() {
        lemma_flat_group(fs, filters, shown, i + 1, prefix, bound);
        assert(!shown[i].is_directory);
        assert(all.skip(i) =~= seq![all[i]] + all.skip(i + 1));
        assert(group_from(fs, filters, shown, i, prefix, bound) =~= all.skip(i));
    } else {
        assert(all.skip(i) =~= Seq::<Seq<char>>::empty());
    }
}

/// Below a directory of which only files are shown stand the lines of these
/// files and nothing else: one line for each, in listing order, the last
/// with the elbow connector and the others with the tee.
pub proof fn lemma_flat_directory(
    fs: FileSystem,
    filters: FiltersView,
    path: Seq<char>,
    prefix: Seq<char>,
)
    requires
        (fs.list)(path) is Entries,
        forall|k: int|
            0 <= k < surviving(sorted_entries(children(fs, path)), filters).len() ==> !(
            #[trigger] surviving(sorted_entries(children(fs, path)), filters)[k]).is_directory,
    ensures
        dir_lines(fs, filters, path, prefix) == group_lines(
            prefix,
            names_of(surviving(sorted_entries(children(fs, path)), filters)),
        ),
{
    let shown = surviving(sorted_entries(children(fs, path)), filters);
    lemma_flat_group(fs, filters, shown, 0, prefix, (fs.rank)(path));
    assert(group_lines(prefix, names_of(shown)).skip(0) =~= group_lines(prefix, names_of(shown)));
}

} // verus!
