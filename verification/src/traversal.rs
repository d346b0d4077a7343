//! What a traversal writes, and that the walker writes exactly that.
//!
//! A `FileSystem` says what every path answers. `render` gives the lines of
//! the tree below a directory by recursion on the tree itself; `run` drives
//! a walker against the file system, round by round. The laws at the end
//! say that the two agree.

use vstd::prelude::*;
use crate::connector::indentation;
use crate::entry::{excluded, EntryView};
use crate::line::line_text;
use crate::listing::{distinct_names, lemma_listing_ignores_read_order, listing, same_entries};
use crate::walker::{
    lemma_asks_for_kept_only, lemma_step_wf, Phase, ReplyView, RequestView, WalkerView,
};

verus! {

/// A file system as a traversal meets it: for each path, what reading it as
/// a directory gives (its entries in the order read, or the reason why it
/// cannot be read), and whether it is a directory.
pub struct FileSystem {
    pub read_dir: spec_fn(Seq<char>) -> Result<Seq<EntryView>, Seq<char>>,
    pub is_dir: spec_fn(Seq<char>) -> bool,
}

/// How a rendering ended.
pub enum Outcome {
    /// Every entry was written.
    Complete,
    /// A directory could not be read, for this reason; nothing was written
    /// after the line of that directory.
    Failed(Seq<char>),
    /// The tree is nested deeper than the bound that was given.
    TooDeep,
}

/// The lines of a tree, and how the rendering ended.
pub struct Rendering {
    pub lines: Seq<Seq<char>>,
    pub outcome: Outcome,
}

/// The lines below the directory at `path`, whose own line was written
/// under the is-last stack `stack`, in a tree nested at most `height`
/// levels below it.
pub open spec fn render_dir(
    fs: FileSystem,
    exclude: Seq<Seq<char>>,
    path: Seq<char>,
    stack: Seq<bool>,
    height: nat,
) -> Rendering
    decreases height, 2nat, 0nat,
{
    match (fs.read_dir)(path) {
        Err(message) => Rendering { lines: Seq::empty(), outcome: Outcome::Failed(message) },
        Ok(raw) => render_entries(fs, exclude, listing(raw, exclude), 0, stack, height),
    }
}

/// The lines of the entries of a listing from index `from` on, each
/// followed by the lines below it, under the is-last stack `stack` of
/// their directory. The last entry of the listing, and no other, is
/// flagged as last. Nothing is written after a failure.
pub open spec fn render_entries(
    fs: FileSystem,
    exclude: Seq<Seq<char>>,
    entries: Seq<EntryView>,
    from: nat,
    stack: Seq<bool>,
    height: nat,
) -> Rendering
    decreases height, 1nat, entries.len() - from,
{
    if from >= entries.len() {
        Rendering { lines: Seq::empty(), outcome: Outcome::Complete }
    } else {
        let first = render_entry(
            fs,
            exclude,
            entries[from as int],
            stack.push(from + 1 == entries.len()),
            height,
        );
        if first.outcome is Complete {
            let rest = render_entries(fs, exclude, entries, from + 1, stack, height);
            Rendering { lines: first.lines + rest.lines, outcome: rest.outcome }
        } else {
            first
        }
    }
}

/// The line of one entry under the is-last stack `flags`, whose top is the
/// entry's own flag, and then, for a directory, the lines below it.
pub open spec fn render_entry(
    fs: FileSystem,
    exclude: Seq<Seq<char>>,
    entry: EntryView,
    flags: Seq<bool>,
    height: nat,
) -> Rendering
    decreases height, 0nat, 0nat,
{
    let is_dir = (fs.is_dir)(entry.path);
    let line = line_text(entry.name, is_dir, indentation(flags.len(), flags));
    if !is_dir {
        Rendering { lines: seq![line], outcome: Outcome::Complete }
    } else if height == 0 {
        Rendering { lines: seq![line], outcome: Outcome::TooDeep }
    } else {
        let below = render_dir(fs, exclude, entry.path, flags, (height - 1) as nat);
        Rendering { lines: seq![line] + below.lines, outcome: below.outcome }
    }
}

/// The lines below the root: the whole tree but for its first line.
pub open spec fn render(
    fs: FileSystem,
    exclude: Seq<Seq<char>>,
    root: Seq<char>,
    height: nat,
) -> Rendering {
    render_dir(fs, exclude, root, Seq::empty(), height)
}

/// What the file system answers to a request; nothing where nothing is
/// asked.
pub open spec fn answer(fs: FileSystem, request: RequestView) -> Option<ReplyView> {
    match request {
        RequestView::List(path) => Some(
            match (fs.read_dir)(path) {
                Ok(raw) => ReplyView::Listed(raw),
                Err(message) => ReplyView::Unreadable(message),
            },
        ),
        RequestView::Probe(path) => Some(ReplyView::Kind((fs.is_dir)(path))),
        RequestView::Done => None,
        RequestView::Abort(_) => None,
    }
}

/// Where a walker stands after some rounds, and the lines written in them.
pub struct Run {
    pub state: WalkerView,
    pub lines: Seq<Seq<char>>,
}

/// One round: the walker's request is answered and the walker moves on.
pub open spec fn round(walker: WalkerView, fs: FileSystem) -> Run {
    match answer(fs, walker.request()) {
        Some(reply) => Run {
            state: walker.step(reply),
            lines: match walker.emitted(reply) {
                Some(line) => seq![line],
                None => Seq::empty(),
            },
        },
        None => Run { state: walker, lines: Seq::empty() },
    }
}

/// `rounds` rounds, one after the other.
pub open spec fn run(walker: WalkerView, fs: FileSystem, rounds: nat) -> Run
    decreases rounds,
{
    if rounds == 0 {
        Run { state: walker, lines: Seq::empty() }
    } else {
        let first = round(walker, fs);
        let rest = run(first.state, fs, (rounds - 1) as nat);
        Run { state: rest.state, lines: first.lines + rest.lines }
    }
}

/// Running `a + b` rounds is running `a` rounds and then `b` more.
pub proof fn lemma_run_add(walker: WalkerView, fs: FileSystem, a: nat, b: nat)
    ensures
        run(walker, fs, a + b).state == run(run(walker, fs, a).state, fs, b).state,
        run(walker, fs, a + b).lines == run(walker, fs, a).lines + run(
            run(walker, fs, a).state,
            fs,
            b,
        ).lines,
    decreases a,
{
    if a > 0 {
        let first = round(walker, fs);
        let mid = run(first.state, fs, (a - 1) as nat);
        let end = run(mid.state, fs, b);
        lemma_run_add(first.state, fs, (a - 1) as nat, b);
        assert(first.lines + (mid.lines + end.lines) == (first.lines + mid.lines) + end.lines);
    }
}

/// A run from a well-formed state stays well-formed, with the root and the
/// exclusion set it began with.
pub proof fn lemma_run_wf(walker: WalkerView, fs: FileSystem, rounds: nat)
    requires
        walker.wf(),
    ensures
        run(walker, fs, rounds).state.wf(),
        run(walker, fs, rounds).state.root == walker.root,
        run(walker, fs, rounds).state.exclude == walker.exclude,
    decreases rounds,
{
    if rounds > 0 {
        match answer(fs, walker.request()) {
            Some(reply) => {
                lemma_step_wf(walker, reply);
            },
            None => {},
        }
        lemma_run_wf(round(walker, fs).state, fs, (rounds - 1) as nat);
    }
}

/// Exclusion. At every round of a traversal, the walker asks about the
/// root or about an entry that was listed, whose name is not in the
/// exclusion set: what lies under an excluded name is never asked for.
pub proof fn lemma_run_asks_for_kept_only(
    fs: FileSystem,
    exclude: Seq<Seq<char>>,
    root: Seq<char>,
    rounds: nat,
)
    ensures
        ({
            let walker = run(WalkerView::initial(root, exclude), fs, rounds).state;
            match walker.request() {
                RequestView::List(path) => if walker.frames.len() == 0 {
                    path == root
                } else {
                    path == walker.current().path && !excluded(walker.current().name, exclude)
                },
                RequestView::Probe(path) => path == walker.current().path && !excluded(
                    walker.current().name,
                    exclude,
                ),
                _ => true,
            }
        }),
{
    lemma_run_wf(WalkerView::initial(root, exclude), fs, rounds);
    lemma_asks_for_kept_only(run(WalkerView::initial(root, exclude), fs, rounds).state);
}

/// How a run ended, set against how the rendering ended: after a complete
/// rendering the walker stands at `done`; after a failed one it has
/// aborted with the same reason.
pub open spec fn ended_as(after: WalkerView, outcome: Outcome, done: WalkerView) -> bool {
    match outcome {
        Outcome::Complete => after == done,
        Outcome::Failed(message) => after.phase == Phase::Aborted && after.failure == message,
        Outcome::TooDeep => true,
    }
}

/// A walker that waits for the listing of a directory writes, in the
/// rounds that follow, the lines below that directory, and then stands
/// where leaving the directory puts it.
pub proof fn lemma_directory_rendered(
    walker: WalkerView,
    fs: FileSystem,
    path: Seq<char>,
    height: nat,
) -> (rounds: nat)
    requires
        walker.wf(),
        walker.request() == RequestView::List(path),
        !(render_dir(fs, walker.exclude, path, walker.path_last, height).outcome is TooDeep),
    ensures
        run(walker, fs, rounds).lines == render_dir(
            fs,
            walker.exclude,
            path,
            walker.path_last,
            height,
        ).lines,
        ended_as(
            run(walker, fs, rounds).state,
            render_dir(fs, walker.exclude, path, walker.path_last, height).outcome,
            walker.leave(),
        ),
    decreases height, 2nat, 0nat,
{
    lemma_run_one(walker, fs);
    match (fs.read_dir)(path) {
        Err(message) => 1,
        Ok(raw) => {
            if listing(raw, walker.exclude).len() == 0 {
                1
            } else {
                // The first round enters the directory; leaving it again
                // is leaving from where the walker stands now.
                let entered = walker.enter(raw);
                lemma_step_wf(walker, ReplyView::Listed(raw));
                assert(entered.frames.drop_last() == walker.frames);
                assert(entered.outside() == walker);
                let more = lemma_entries_rendered(entered, fs, height);
                lemma_run_add(walker, fs, 1, more);
                1 + more
            }
        },
    }
}

/// A walker that waits for the probe of an entry writes, in the rounds
/// that follow, the line of that entry and of every entry behind it in the
/// same directory, each with the lines below it, and then stands where
/// leaving that directory puts it.
pub proof fn lemma_entries_rendered(walker: WalkerView, fs: FileSystem, height: nat) -> (rounds:
    nat)
    requires
        walker.wf(),
        walker.phase == Phase::Probing,
        !(render_entries(
            fs,
            walker.exclude,
            walker.frames.last().entries,
            walker.frames.last().index,
            walker.path_last,
            height,
        ).outcome is TooDeep),
    ensures
        run(walker, fs, rounds).lines == render_entries(
            fs,
            walker.exclude,
            walker.frames.last().entries,
            walker.frames.last().index,
            walker.path_last,
            height,
        ).lines,
        ended_as(
            run(walker, fs, rounds).state,
            render_entries(
                fs,
                walker.exclude,
                walker.frames.last().entries,
                walker.frames.last().index,
                walker.path_last,
                height,
            ).outcome,
            walker.outside().leave(),
        ),
    decreases height, 1nat, walker.frames.last().entries.len() - walker.frames.last().index,
{
    let above = walker.frames.last();
    let first = render_entry(fs, walker.exclude, walker.current(), walker.pushed(), height);
    let rest = render_entries(
        fs,
        walker.exclude,
        above.entries,
        above.index + 1,
        walker.path_last,
        height,
    );
    let spent = lemma_entry_rendered(walker, fs, height);
    if !(first.outcome is Complete) {
        spent
    } else if above.at_last() {
        assert(rest.lines == Seq::<Seq<char>>::empty());
        spent
    } else {
        // The walker stands at the next entry of the same directory.
        let next = walker.onward();
        assert(next.frames.last() == above.advanced());
        assert(next.frames.drop_last() == walker.frames.drop_last());
        assert(next.outside() == walker.outside());
        let more = lemma_entries_rendered(next, fs, height);
        lemma_run_add(walker, fs, spent, more);
        spent + more
    }
}

/// Stack restoration. A walker that waits for the probe of an entry
/// writes, in the rounds that follow, the line of that entry and the lines
/// below it, however deep they reach. It then stands at the next entry of
/// the same directory, with the stack it had before, or, after the last
/// entry, where leaving the directory puts it.
pub proof fn lemma_entry_rendered(walker: WalkerView, fs: FileSystem, height: nat) -> (rounds:
    nat)
    requires
        walker.wf(),
        walker.phase == Phase::Probing,
        !(render_entry(fs, walker.exclude, walker.current(), walker.pushed(), height).outcome
            is TooDeep),
    ensures
        run(walker, fs, rounds).lines == render_entry(
            fs,
            walker.exclude,
            walker.current(),
            walker.pushed(),
            height,
        ).lines,
        ended_as(
            run(walker, fs, rounds).state,
            render_entry(fs, walker.exclude, walker.current(), walker.pushed(), height).outcome,
            if walker.frames.last().at_last() {
                walker.outside().leave()
            } else {
                walker.onward()
            },
        ),
        walker.onward().path_last == walker.path_last,
        walker.onward().frames.len() == walker.frames.len(),
    decreases height, 0nat, 0nat,
{
    let entry = walker.current();
    // The first round writes the line of the entry and puts its flag on
    // the stack. Leaving from there takes the flag off again.
    let inside = WalkerView { path_last: walker.pushed(), phase: Phase::Listing, ..walker };
    lemma_run_one(walker, fs);
    assert(inside.path_last.drop_last() == walker.path_last);
    assert(inside.leave() == if walker.frames.last().at_last() {
        walker.outside().leave()
    } else {
        walker.onward()
    });
    if (fs.is_dir)(entry.path) {
        let under = lemma_directory_rendered(inside, fs, entry.path, (height - 1) as nat);
        lemma_run_add(walker, fs, 1, under);
        1 + under
    } else {
        1
    }
}

/// One round is what `round` says.
proof fn lemma_run_one(walker: WalkerView, fs: FileSystem)
    ensures
        run(walker, fs, 1).state == round(walker, fs).state,
        run(walker, fs, 1).lines == round(walker, fs).lines,
{
    assert(run(round(walker, fs).state, fs, 0).lines == Seq::<Seq<char>>::empty());
}

/// A traversal that begins at `root` writes the lines below the root and
/// then asks for nothing more: it is done where the rendering is complete,
/// and has aborted with the reason of the first directory that could not
/// be read where it is not.
pub proof fn lemma_walk_renders(
    fs: FileSystem,
    exclude: Seq<Seq<char>>,
    root: Seq<char>,
    height: nat,
) -> (rounds: nat)
    requires
        !(render(fs, exclude, root, height).outcome is TooDeep),
    ensures
        run(WalkerView::initial(root, exclude), fs, rounds).lines == render(
            fs,
            exclude,
            root,
            height,
        ).lines,
        run(WalkerView::initial(root, exclude), fs, rounds).state.request() == (match render(
            fs,
            exclude,
            root,
            height,
        ).outcome {
            Outcome::Failed(message) => RequestView::Abort(message),
            _ => RequestView::Done,
        }),
{
    let start = WalkerView::initial(root, exclude);
    lemma_directory_rendered(start, fs, root, height)
}

/// Once a walker asks for nothing more, further rounds change nothing and
/// write nothing.
pub proof fn lemma_run_rests(walker: WalkerView, fs: FileSystem, rounds: nat)
    requires
        walker.phase == Phase::Finished || walker.phase == Phase::Aborted,
    ensures
        run(walker, fs, rounds).state == walker,
        run(walker, fs, rounds).lines == Seq::<Seq<char>>::empty(),
    decreases rounds,
{
    if rounds > 0 {
        lemma_run_rests(walker, fs, (rounds - 1) as nat);
    }
}

/// The two file systems answer alike at `path`: both call it a directory
/// or neither does, and reading it fails in both for the same reason or
/// gives in both the same entries, under distinct names, in whatever
/// order.
pub open spec fn agree_at(one: FileSystem, other: FileSystem, path: Seq<char>) -> bool {
    &&& (one.is_dir)(path) == (other.is_dir)(path)
    &&& match ((one.read_dir)(path), (other.read_dir)(path)) {
        (Ok(a), Ok(b)) => distinct_names(a) && distinct_names(b) && same_entries(a, b),
        (Err(x), Err(y)) => x == y,
        _ => false,
    }
}

/// The two file systems hold the same tree: they answer alike at every
/// path.
pub open spec fn same_tree(one: FileSystem, other: FileSystem) -> bool {
    forall|path: Seq<char>| #[trigger] agree_at(one, other, path)
}

/// Idempotence. Two file systems that hold the same tree render alike
/// below every directory, in whatever order each of them hands out the
/// entries of a directory.
pub proof fn lemma_render_ignores_read_order(
    one: FileSystem,
    other: FileSystem,
    exclude: Seq<Seq<char>>,
    path: Seq<char>,
    stack: Seq<bool>,
    height: nat,
)
    requires
        same_tree(one, other),
    ensures
        render_dir(one, exclude, path, stack, height) == render_dir(
            other,
            exclude,
            path,
            stack,
            height,
        ),
    decreases height, 2nat, 0nat,
{
    assert(agree_at(one, other, path));
    match ((one.read_dir)(path), (other.read_dir)(path)) {
        (Ok(a), Ok(b)) => {
            lemma_listing_ignores_read_order(a, b, exclude);
            lemma_entries_alike(one, other, exclude, listing(a, exclude), 0, stack, height);
        },
        _ => {},
    }
}

/// Idempotence. Two traversals from one root over file systems that hold
/// the same tree write the same lines and end alike.
pub proof fn lemma_walk_ignores_read_order(
    one: FileSystem,
    other: FileSystem,
    exclude: Seq<Seq<char>>,
    root: Seq<char>,
    height: nat,
) -> (rounds: (nat, nat))
    requires
        same_tree(one, other),
        !(render(one, exclude, root, height).outcome is TooDeep),
    ensures
        run(WalkerView::initial(root, exclude), one, rounds.0).lines == run(
            WalkerView::initial(root, exclude),
            other,
            rounds.1,
        ).lines,
        run(WalkerView::initial(root, exclude), one, rounds.0).state.request() == run(
            WalkerView::initial(root, exclude),
            other,
            rounds.1,
        ).state.request(),
{
    lemma_render_ignores_read_order(one, other, exclude, root, Seq::empty(), height);
    let first = lemma_walk_renders(one, exclude, root, height);
    let second = lemma_walk_renders(other, exclude, root, height);
    (first, second)
}

/// Two file systems that hold the same tree render the entries of one
/// listing alike.
proof fn lemma_entries_alike(
    one: FileSystem,
    other: FileSystem,
    exclude: Seq<Seq<char>>,
    entries: Seq<EntryView>,
    from: nat,
    stack: Seq<bool>,
    height: nat,
)
    requires
        same_tree(one, other),
    ensures
        render_entries(one, exclude, entries, from, stack, height) == render_entries(
            other,
            exclude,
            entries,
            from,
            stack,
            height,
        ),
    decreases height, 1nat, entries.len() - from,
{
    if from < entries.len() {
        let entry = entries[from as int];
        let flags = stack.push(from + 1 == entries.len());
        assert(agree_at(one, other, entry.path));
        if (one.is_dir)(entry.path) && height > 0 {
            lemma_render_ignores_read_order(
                one,
                other,
                exclude,
                entry.path,
                flags,
                (height - 1) as nat,
            );
        }
        assert(render_entry(one, exclude, entry, flags, height) == render_entry(
            other,
            exclude,
            entry,
            flags,
            height,
        ));
        lemma_entries_alike(one, other, exclude, entries, from + 1, stack, height);
    }
}

} // verus!
