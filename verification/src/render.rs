//! The traversal: which directory is read next, and which line is written
//! next.
//!
//! A [`Renderer`] never reads a directory itself. It names the directory
//! whose listing it awaits; the caller reads it and hands the listing, or
//! the reason why it could not be read, to [`Renderer::enter`]. While no
//! listing is awaited, [`Renderer::next_line`] gives the lines of the
//! diagram one by one, depth first.

use crate::entry::{
    entry_views, lemma_sorted_entries_ordered, ordered, sort_entries, sorted_entries,
    DirectoryEntry, EntryView,
};
use crate::filter::{
    lemma_surviving_members, lemma_surviving_ordered, retain_shown, survives, surviving, Filters,
    FiltersView,
};
use crate::line::{
    child_prefix, connector_at, entry_line, error_line, failure_line, header_line, header_of,
    is_indent,
    lemma_indent_len, lemma_prefix_below_depth, line_of, prefix_below,
};
use vstd::prelude::*;

verus! {

/// What reading a directory gave: its children, in any order, or the
/// message of the failure.
pub enum Listing {
    Entries(Vec<DirectoryEntry>),
    Failed(String),
}

/// What a [`Listing`] holds.
pub enum ListingView {
    Entries(Seq<EntryView>),
    Failed(Seq<char>),
}

impl View for Listing {
    type V = ListingView;

    open spec fn view(&self) -> ListingView {
        match self {
            Listing::Entries(entries) => ListingView::Entries(entry_views(entries@)),
            Listing::Failed(message) => ListingView::Failed(message@),
        }
    }
}

/// The shown children of a directory that is being written, in listing
/// order, with the number of them already written and the indentation of
/// their lines.
pub struct Frame {
    entries: Vec<DirectoryEntry>,
    next: usize,
    prefix: String,
}

/// What a [`Frame`] holds.
pub struct FrameView {
    pub entries: Seq<EntryView>,
    pub next: nat,
    pub prefix: Seq<char>,
}

impl View for Frame {
    type V = FrameView;

    closed spec fn view(&self) -> FrameView {
        FrameView { entries: entry_views(self.entries@), next: self.next as nat, prefix: self.prefix@ }
    }
}

/// A directory whose line is written and whose listing is awaited.
pub struct Awaited {
    path: String,
    prefix: String,
}

/// What an [`Awaited`] holds: the path to read, and the indentation of the
/// lines of its children.
pub struct AwaitedView {
    pub path: Seq<char>,
    pub prefix: Seq<char>,
}

impl View for Awaited {
    type V = AwaitedView;

    closed spec fn view(&self) -> AwaitedView {
        AwaitedView { path: self.path@, prefix: self.prefix@ }
    }
}

/// The state of a traversal.
pub struct Renderer {
    filters: Filters,
    stack: Vec<Frame>,
    awaited: Option<Awaited>,
}

/// What a [`Renderer`] holds: the filters, the directories being written
/// from the root's downwards, and the directory whose listing is awaited.
pub struct RendererView {
    pub filters: FiltersView,
    pub stack: Seq<FrameView>,
    pub awaited: Option<AwaitedView>,
}

/// The frames of a vector, each as what it holds.
pub closed spec fn frame_views(s: Seq<Frame>) -> Seq<FrameView> {
    s.map_values(|f: Frame| f@)
}

impl View for Renderer {
    type V = RendererView;

    closed spec fn view(&self) -> RendererView {
        RendererView {
            filters: self.filters@,
            stack: frame_views(self.stack@),
            awaited: match self.awaited {
                Some(a) => Some(a@),
                None => None,
            },
        }
    }
}

/// Whether a frame at nesting depth `depth` is in order: its entries are
/// shown under the filters and stand in listing order, and its indentation
/// has `depth` levels.
pub open spec fn frame_wf(f: FrameView, depth: nat, filters: FiltersView) -> bool {
    &&& f.next <= f.entries.len()
    &&& ordered(f.entries)
    &&& forall|i: int| 0 <= i < f.entries.len() ==> survives(#[trigger] f.entries[i], filters)
    &&& is_indent(f.prefix, depth)
}

/// Whether a state is in order: each frame is, at the depth of its place;
/// and an awaited directory is the root, with no indentation, or the entry
/// written last, with the indentation that this entry gives to what is
/// below it.
pub open spec fn state_wf(v: RendererView) -> bool {
    &&& forall|k: int| 0 <= k < v.stack.len() ==> frame_wf(#[trigger] v.stack[k], k as nat, v.filters)
    &&& match v.awaited {
        Some(a) => {
            &&& is_indent(a.prefix, v.stack.len())
            &&& v.stack.len() > 0 ==> {
                let top = v.stack.last();
                &&& top.next > 0
                &&& top.entries[top.next - 1].is_directory
                &&& a.path == top.entries[top.next - 1].path
                &&& a.prefix == prefix_below(top.prefix, top.next == top.entries.len())
            }
        },
        None => true,
    }
}

/// The frames that are left when those at the top of which every entry is
/// written are dropped.
pub open spec fn settled(stack: Seq<FrameView>) -> Seq<FrameView>
    decreases stack.len(),
{
    if stack.len() > 0 && stack.last().next >= stack.last().entries.len() {
        settled(stack.drop_last())
    } else {
        stack
    }
}

/// The state at the start: nothing is being written, and the listing of the
/// root is awaited.
pub open spec fn initial_state(root_path: Seq<char>, filters: FiltersView) -> RendererView {
    RendererView {
        filters,
        stack: Seq::empty(),
        awaited: Some(AwaitedView { path: root_path, prefix: Seq::empty() }),
    }
}

/// The line that a listing gives: none for the children of a directory, one
/// that reports the failure where it could not be read.
pub open spec fn listing_line(v: RendererView, listing: ListingView) -> Option<Seq<char>>
    recommends
        v.awaited is Some,
{
    match listing {
        ListingView::Entries(_) => None,
        ListingView::Failed(message) => Some(failure_line(v.awaited->0.prefix, message)),
    }
}

/// The state after a listing: nothing is awaited; the children that are
/// shown, in listing order, are the frame at the top, none of them written
/// yet. A directory that could not be read adds no frame.
pub open spec fn after_listing(v: RendererView, listing: ListingView) -> RendererView
    recommends
        v.awaited is Some,
{
    match listing {
        ListingView::Entries(entries) => RendererView {
            filters: v.filters,
            stack: v.stack.push(
                FrameView {
                    entries: surviving(sorted_entries(entries), v.filters),
                    next: 0,
                    prefix: v.awaited->0.prefix,
                },
            ),
            awaited: None,
        },
        ListingView::Failed(_) => RendererView { filters: v.filters, stack: v.stack, awaited: None },
    }
}

/// The next line: that of the first entry not yet written in the deepest
/// directory that has one; none where every entry is written.
pub open spec fn line_now(v: RendererView) -> Option<Seq<char>> {
    let s = settled(v.stack);
    if s.len() == 0 {
        None
    } else {
        let f = s.last();
        Some(line_of(f.prefix, f.next + 1 == f.entries.len(), f.entries[f.next as int].name))
    }
}

/// The state after the next line: the entry counts as written, and if it is
/// a directory, its listing is awaited.
pub open spec fn after_line(v: RendererView) -> RendererView {
    let s = settled(v.stack);
    if s.len() == 0 {
        RendererView { filters: v.filters, stack: s, awaited: None }
    } else {
        let f = s.last();
        let e = f.entries[f.next as int];
        let last = f.next + 1 == f.entries.len();
        RendererView {
            filters: v.filters,
            stack: s.drop_last().push(
                FrameView { entries: f.entries, next: f.next + 1, prefix: f.prefix },
            ),
            awaited: if e.is_directory {
                Some(AwaitedView { path: e.path, prefix: prefix_below(f.prefix, last) })
            } else {
                None
            },
        }
    }
}

/// An entry at nesting depth `k` is written with an indentation of exactly
/// `k` segments, followed by the connector of its place among its shown
/// siblings and by its name; and every entry that is written is shown under
/// the filters.
pub proof fn lemma_line_now(v: RendererView)
    requires
        state_wf(v),
        line_now(v) is Some,
    ensures
        settled(v.stack).len() > 0,
        ({
            let f = settled(v.stack).last();
            let depth = (settled(v.stack).len() - 1) as nat;
            &&& f.next < f.entries.len()
            &&& is_indent(f.prefix, depth)
            &&& survives(f.entries[f.next as int], v.filters)
            &&& line_now(v)->0.take((4 * depth) as int) == f.prefix
            &&& line_now(v)->0 == f.prefix + connector_at(
                f.next as int,
                f.entries.len() as int,
            ) + f.entries[f.next as int].name
        }),
{
    lemma_settled(v.stack);
    let s = settled(v.stack);
    let f = s.last();
    let depth = (s.len() - 1) as nat;
    assert(f == v.stack[s.len() - 1]);
    lemma_indent_len(f.prefix, depth);
    assert(line_now(v)->0.take((4 * depth) as int) =~= f.prefix);
}

proof fn lemma_settled(stack: Seq<FrameView>)
    ensures
        settled(stack).len() <= stack.len(),
        settled(stack) == stack.take(settled(stack).len() as int),
        settled(stack).len() > 0 ==> settled(stack).last().next < settled(
            stack,
        ).last().entries.len(),
    decreases stack.len(),
{
    if stack.len() > 0 && stack.last().next >= stack.last().entries.len() {
        lemma_settled(stack.drop_last());
        let n = settled(stack).len() as int;
        assert(stack.drop_last().take(n) =~= stack.take(n));
    } else {
        assert(stack.take(stack.len() as int) =~= stack);
    }
}

impl Renderer {
    /// Whether the state is in order.
    pub open spec fn wf(&self) -> bool {
        state_wf(self@)
    }

    /// Starts the diagram of the directory at `root_path`. The first line
    /// is the root's base name, whatever the filters say, or `.` where
    /// there is none; the listing of the root is awaited.
    pub fn start(base_name: Option<&str>, root_path: String, filters: Filters) -> (out: (
        Renderer,
        String,
    ))
        ensures
            out.0.wf(),
            out.0@ == initial_state(root_path@, filters@),
            out.1@ == header_of(
                match base_name {
                    Some(name) => Some(name@),
                    None => None,
                },
            ),
    {
        let header = header_line(base_name);
        let renderer = Renderer {
            filters,
            stack: Vec::new(),
            awaited: Some(Awaited { path: root_path, prefix: String::new() }),
        };
        proof {
            assert(frame_views(renderer.stack@) =~= Seq::<FrameView>::empty());
        }
        (renderer, header)
    }

    /// The path of the directory whose listing is awaited, if one is.
    pub fn awaited_path(&self) -> (path: Option<&String>)
        ensures
            match path {
                Some(p) => self@.awaited is Some && p@ == self@.awaited->0.path,
                None => self@.awaited is None,
            },
    {
        match &self.awaited {
            Some(a) => Some(&a.path),
            None => None,
        }
    }

    /// Takes the listing of the awaited directory; to be called only while
    /// one is awaited. Its children are put into listing order and those
    /// that the filters leave out are dropped; what remains is written
    /// next. Where the directory could not be read, the line that says so
    /// is returned, and the traversal goes on after the directory.
    pub fn enter(&mut self, listing: Listing) -> (line: Option<String>)
        requires
            old(self).wf(),
            old(self)@.awaited is Some,
        ensures
            final(self).wf(),
            final(self)@ == after_listing(old(self)@, listing@),
            match line {
                Some(l) => listing_line(old(self)@, listing@) == Some(l@),
                None => listing_line(old(self)@, listing@) is None,
            },
    {
        let ghost before = self@;
        let awaited = self.awaited.take().unwrap();
        match listing {
            Listing::Failed(message) => {
                let line = error_line(awaited.prefix.as_str(), message.as_str());
                proof {
                    assert(self@.stack =~= before.stack);
                }
                Some(line)
            },
            Listing::Entries(entries) => {
                let ghost raw = entry_views(entries@);
                let shown = retain_shown(sort_entries(entries), &self.filters);
                proof {
                    lemma_sorted_entries_ordered(raw);
                    lemma_surviving_ordered(sorted_entries(raw), before.filters);
                    lemma_surviving_members(sorted_entries(raw), before.filters);
                }
                let frame = Frame { entries: shown, next: 0, prefix: awaited.prefix };
                self.stack.push(frame);
                proof {
                    assert(frame_views(self.stack@) =~= before.stack.push(frame@));
                    assert(self@ == after_listing(before, listing@));
                    assert forall|k: int| 0 <= k < self@.stack.len() implies frame_wf(
                        #[trigger] self@.stack[k],
                        k as nat,
                        self@.filters,
                    ) by {
                        if k < before.stack.len() {
                            assert(self@.stack[k] == before.stack[k]);
                        }
                    }
                }
                None
            },
        }
    }

    /// Gives the next line of the diagram, or `None` when the diagram is
    /// complete; to be called only while no listing is awaited. The line is
    /// that of the first entry not yet written in the deepest directory
    /// that has one: the indentation of its directory, the elbow connector
    /// if no shown sibling follows it and the tee otherwise, and its name.
    /// If the entry is a directory, its listing is awaited before the next
    /// line.
    pub fn next_line(&mut self) -> (line: Option<String>)
        requires
            old(self).wf(),
            old(self)@.awaited is None,
        ensures
            final(self).wf(),
            final(self)@ == after_line(old(self)@),
            match line {
                Some(l) => line_now(old(self)@) == Some(l@),
                None => line_now(old(self)@) is None,
            },
    {
        let ghost before = self@;
        loop
            invariant
                before == old(self)@,
                self.wf(),
                self@.awaited is None,
                self@.filters == before.filters,
                settled(self@.stack) == settled(before.stack),
            decreases self.stack@.len(),
        {
            let ghost now = self@;
            if self.stack.len() == 0 {
                proof {
                    assert(self@.stack =~= settled(before.stack));
                }
                return None;
            }
            let mut frame = self.stack.pop().unwrap();
            proof {
                assert(frame@ == now.stack.last());
                assert(frame_views(self.stack@) =~= now.stack.drop_last());
                assert(frame_wf(now.stack[now.stack.len() - 1], (now.stack.len() - 1) as nat, now.filters));
                assert forall|k: int| 0 <= k < self@.stack.len() implies frame_wf(
                    #[trigger] self@.stack[k],
                    k as nat,
                    self@.filters,
                ) by {
                    assert(self@.stack[k] == now.stack[k]);
                }
            }
            if frame.next < frame.entries.len() {
                let ghost f = frame@;
                let ghost rest = self@.stack;
                let last = frame.next + 1 == frame.entries.len();
                let entry = &frame.entries[frame.next];
                proof {
                    assert(entry@ == f.entries[f.next as int]);
                    assert(settled(now.stack) == now.stack);
                }
                let line = entry_line(frame.prefix.as_str(), last, entry.name.as_str());
                if entry.is_directory {
                    let below = child_prefix(frame.prefix.as_str(), last);
                    proof {
                        lemma_prefix_below_depth(f.prefix, rest.len(), last);
                    }
                    self.awaited = Some(Awaited { path: entry.path.clone(), prefix: below });
                }
                frame.next = frame.next + 1;
                self.stack.push(frame);
                proof {
                    assert(frame_views(self.stack@) =~= rest.push(frame@));
                    assert(frame@ == (FrameView {
                        entries: f.entries,
                        next: f.next + 1,
                        prefix: f.prefix,
                    }));
                    assert(self@ == after_line(before));
                    assert forall|k: int| 0 <= k < self@.stack.len() implies frame_wf(
                        #[trigger] self@.stack[k],
                        k as nat,
                        self@.filters,
                    ) by {
                        if k < rest.len() {
                            assert(self@.stack[k] == rest[k]);
                        }
                    }
                }
                return Some(line);
            }
        }
    }
}

} // verus!
