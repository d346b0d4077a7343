//! The traversal as a machine that asks and is answered.
//!
//! A `Walker` never touches the file system. It says what it needs next (a
//! directory listed, or an entry probed for being a directory); whoever
//! drives it does that and hands back the reply, and the walker then moves
//! on and gives the line to write, if there is one. The first directory
//! that cannot be read ends the traversal.

use vstd::prelude::*;
use vstd::string::*;
use crate::connector::{create_indentation, indentation};
use crate::entry::{excluded, DirectoryEntry, EntryView};
use crate::line::{indented_line, line_text};
use crate::listing::{lemma_listing_keeps, list_entries, listing};
use crate::sorting::sorted_by_name;

verus! {

/// What the walker is waiting for.
#[derive(Clone, Copy, Debug, PartialEq, Eq)]
pub enum Phase {
    /// The listing of a directory.
    Listing,
    /// Whether the current entry is a directory.
    Probing,
    /// Nothing: every entry was visited.
    Finished,
    /// Nothing: a directory could not be read.
    Aborted,
}

/// What the walker needs next.
#[derive(Clone, Debug, PartialEq, Eq)]
pub enum Request {
    /// The entries of the directory at this path.
    List(String),
    /// Whether this path is a directory.
    Probe(String),
    /// Nothing more: the tree is complete.
    Done,
    /// Nothing more: the traversal failed, with this message.
    Abort(String),
}

/// What a `Request` stands for in contracts.
pub enum RequestView {
    List(Seq<char>),
    Probe(Seq<char>),
    Done,
    Abort(Seq<char>),
}

impl View for Request {
    type V = RequestView;

    open spec fn view(&self) -> RequestView {
        match self {
            Request::List(path) => RequestView::List(path@),
            Request::Probe(path) => RequestView::Probe(path@),
            Request::Done => RequestView::Done,
            Request::Abort(message) => RequestView::Abort(message@),
        }
    }
}

/// The answer to a request.
#[derive(Debug)]
pub enum Reply {
    /// The entries read in the directory, in any order.
    Listed(Vec<DirectoryEntry>),
    /// The directory could not be read, for the reason given.
    Unreadable(String),
    /// Whether the entry is a directory.
    Kind(bool),
}

/// What a `Reply` stands for in contracts.
pub enum ReplyView {
    Listed(Seq<EntryView>),
    Unreadable(Seq<char>),
    Kind(bool),
}

impl View for Reply {
    type V = ReplyView;

    open spec fn view(&self) -> ReplyView {
        match self {
            Reply::Listed(raw) => ReplyView::Listed(raw.deep_view()),
            Reply::Unreadable(message) => ReplyView::Unreadable(message@),
            Reply::Kind(is_dir) => ReplyView::Kind(*is_dir),
        }
    }
}

/// A directory that is being walked: its listing and the entry reached.
pub struct FrameView {
    pub entries: Seq<EntryView>,
    pub index: nat,
}

impl FrameView {
    /// The entry reached.
    pub open spec fn current(self) -> EntryView {
        self.entries[self.index as int]
    }

    /// The entry reached is the last of its directory.
    pub open spec fn at_last(self) -> bool {
        self.index + 1 == self.entries.len()
    }

    /// The same directory with the next entry reached.
    pub open spec fn advanced(self) -> FrameView {
        FrameView { entries: self.entries, index: self.index + 1 }
    }

    /// The frame holds a listing under `exclude` and an entry of it.
    pub open spec fn wf(self, exclude: Seq<Seq<char>>) -> bool {
        &&& self.index < self.entries.len()
        &&& sorted_by_name(self.entries)
        &&& forall|i: int|
            0 <= i < self.entries.len() ==> !excluded((#[trigger] self.entries[i]).name, exclude)
    }
}

/// The state of a traversal.
pub struct WalkerView {
    /// The path of the root directory.
    pub root: Seq<char>,
    /// The exclusion set.
    pub exclude: Seq<Seq<char>>,
    /// The directories entered and not yet left, outermost first.
    pub frames: Seq<FrameView>,
    /// The is-last stack: one flag for each entry that has been visited
    /// and whose subtree is not yet done, outermost first.
    pub path_last: Seq<bool>,
    /// What the walker is waiting for.
    pub phase: Phase,
    /// Why the traversal failed, once it has.
    pub failure: Seq<char>,
}

impl WalkerView {
    /// The state in which a traversal of `root` begins.
    pub open spec fn initial(root: Seq<char>, exclude: Seq<Seq<char>>) -> WalkerView {
        WalkerView {
            root,
            exclude,
            frames: Seq::empty(),
            path_last: Seq::empty(),
            phase: Phase::Listing,
            failure: Seq::empty(),
        }
    }

    /// The stack has one flag per directory entered, but for the innermost
    /// while its current entry waits to be probed; each flag says whether
    /// the entry reached in its directory is the last one there.
    pub open spec fn wf(self) -> bool {
        &&& forall|k: int|
            0 <= k < self.frames.len() ==> (#[trigger] self.frames[k]).wf(self.exclude)
        &&& self.phase == Phase::Probing ==> self.path_last.len() + 1 == self.frames.len()
        &&& self.phase != Phase::Probing ==> self.path_last.len() == self.frames.len()
        &&& self.phase == Phase::Finished ==> self.frames.len() == 0
        &&& forall|k: int|
            0 <= k < self.path_last.len() ==> self.path_last[k] == (
            #[trigger] self.frames[k]).at_last()
    }

    /// The entry reached in the innermost directory.
    pub open spec fn current(self) -> EntryView {
        self.frames.last().current()
    }

    /// What the walker needs next.
    pub open spec fn request(self) -> RequestView {
        match self.phase {
            Phase::Listing => RequestView::List(
                if self.frames.len() == 0 {
                    self.root
                } else {
                    self.current().path
                },
            ),
            Phase::Probing => RequestView::Probe(self.current().path),
            Phase::Finished => RequestView::Done,
            Phase::Aborted => RequestView::Abort(self.failure),
        }
    }

    /// The state after the directory that was last entered is done: its
    /// flag leaves the stack, and the walker turns to the next entry of the
    /// directory above, leaving that one too if it has no more.
    pub open spec fn leave(self) -> WalkerView
        decreases self.frames.len(),
    {
        if self.frames.len() == 0 {
            WalkerView { phase: Phase::Finished, ..self }
        } else {
            let above = self.frames.last();
            let popped = WalkerView {
                frames: self.frames.drop_last(),
                path_last: self.path_last.drop_last(),
                ..self
            };
            if above.at_last() {
                popped.leave()
            } else {
                WalkerView {
                    frames: popped.frames.push(above.advanced()),
                    phase: Phase::Probing,
                    ..popped
                }
            }
        }
    }

    /// The state after the directory asked for was read as `raw`.
    pub open spec fn enter(self, raw: Seq<EntryView>) -> WalkerView {
        let entries = listing(raw, self.exclude);
        if entries.len() == 0 {
            self.leave()
        } else {
            WalkerView {
                frames: self.frames.push(FrameView { entries, index: 0 }),
                phase: Phase::Probing,
                ..self
            }
        }
    }

    /// The stack while the current entry and what is below it are written.
    pub open spec fn pushed(self) -> Seq<bool> {
        self.path_last.push(self.frames.last().at_last())
    }

    /// The line of the current entry.
    pub open spec fn current_line(self, is_dir: bool) -> Seq<char> {
        line_text(
            self.current().name,
            is_dir,
            indentation(self.frames.len(), self.pushed()),
        )
    }

    /// The state after the current entry was probed.
    pub open spec fn visit(self, is_dir: bool) -> WalkerView {
        let inside = WalkerView { path_last: self.pushed(), phase: Phase::Listing, ..self };
        if is_dir {
            inside
        } else {
            inside.leave()
        }
    }

    /// The state after a reply. A reply that is not an answer to what was
    /// asked changes nothing.
    pub open spec fn step(self, reply: ReplyView) -> WalkerView {
        match (self.phase, reply) {
            (Phase::Listing, ReplyView::Listed(raw)) => self.enter(raw),
            (Phase::Listing, ReplyView::Unreadable(message)) => WalkerView {
                phase: Phase::Aborted,
                failure: message,
                ..self
            },
            (Phase::Probing, ReplyView::Kind(is_dir)) => self.visit(is_dir),
            _ => self,
        }
    }

    /// The line to write after a reply, if there is one.
    pub open spec fn emitted(self, reply: ReplyView) -> Option<Seq<char>> {
        match (self.phase, reply) {
            (Phase::Probing, ReplyView::Kind(is_dir)) => Some(self.current_line(is_dir)),
            _ => None,
        }
    }

    /// The state in which the innermost directory was asked for: that
    /// directory not yet entered, the stack as it is.
    pub open spec fn outside(self) -> WalkerView {
        WalkerView { frames: self.frames.drop_last(), phase: Phase::Listing, ..self }
    }

    /// The state with the next entry of the innermost directory reached.
    pub open spec fn onward(self) -> WalkerView {
        WalkerView {
            frames: self.frames.drop_last().push(self.frames.last().advanced()),
            ..self
        }
    }
}

/// Exclusion: a walker asks about the root and about entries that were
/// listed, whose names are not in the exclusion set, and about nothing
/// else; the line it writes is that of such an entry.
pub proof fn lemma_asks_for_kept_only(walker: WalkerView)
    requires
        walker.wf(),
    ensures
        match walker.request() {
            RequestView::List(path) => if walker.frames.len() == 0 {
                path == walker.root
            } else {
                path == walker.current().path
            },
            RequestView::Probe(path) => walker.frames.len() > 0 && path == walker.current().path,
            _ => true,
        },
        walker.frames.len() > 0 ==> walker.frames.last().entries.contains(walker.current())
            && !excluded(walker.current().name, walker.exclude),
{
}

/// A listing that is not empty makes a frame, with its first entry
/// reached.
pub proof fn lemma_first_frame_wf(raw: Seq<EntryView>, exclude: Seq<Seq<char>>)
    requires
        listing(raw, exclude).len() > 0,
    ensures
        (FrameView { entries: listing(raw, exclude), index: 0 }).wf(exclude),
{
    lemma_listing_keeps(raw, exclude);
}

/// Leaving a directory gives a well-formed state again.
pub proof fn lemma_leave_wf(walker: WalkerView)
    requires
        walker.wf(),
        walker.phase == Phase::Listing,
    ensures
        walker.leave().wf(),
        walker.leave().phase == Phase::Probing || walker.leave().phase == Phase::Finished,
        walker.leave().root == walker.root,
        walker.leave().exclude == walker.exclude,
        walker.leave().failure == walker.failure,
    decreases walker.frames.len(),
{
    if walker.frames.len() > 0 {
        let above = walker.frames.last();
        let popped = WalkerView {
            frames: walker.frames.drop_last(),
            path_last: walker.path_last.drop_last(),
            ..walker
        };
        if above.at_last() {
            lemma_leave_wf(popped);
        }
    }
}

/// Every reply leaves a well-formed state well-formed, with the root and
/// the exclusion set it had.
pub proof fn lemma_step_wf(walker: WalkerView, reply: ReplyView)
    requires
        walker.wf(),
    ensures
        walker.step(reply).wf(),
        walker.step(reply).root == walker.root,
        walker.step(reply).exclude == walker.exclude,
{
    match (walker.phase, reply) {
        (Phase::Listing, ReplyView::Listed(raw)) => {
            let entries = listing(raw, walker.exclude);
            if entries.len() == 0 {
                lemma_leave_wf(walker);
            } else {
                lemma_first_frame_wf(raw, walker.exclude);
            }
        },
        (Phase::Probing, ReplyView::Kind(is_dir)) => {
            if !is_dir {
                lemma_leave_wf(
                    WalkerView { path_last: walker.pushed(), phase: Phase::Listing, ..walker },
                );
            }
        },
        _ => {},
    }
}

/// A directory that is being walked.
struct Frame {
    entries: Vec<DirectoryEntry>,
    index: usize,
}

impl DeepView for Frame {
    type V = FrameView;

    closed spec fn deep_view(&self) -> FrameView {
        FrameView { entries: self.entries.deep_view(), index: self.index as nat }
    }
}

/// A traversal in progress.
pub struct Walker {
    root: String,
    exclude: Vec<String>,
    frames: Vec<Frame>,
    path_last: Vec<bool>,
    phase: Phase,
    failure: String,
}

impl View for Walker {
    type V = WalkerView;

    closed spec fn view(&self) -> WalkerView {
        WalkerView {
            root: self.root@,
            exclude: self.exclude.deep_view(),
            frames: self.frames.deep_view(),
            path_last: self.path_last@,
            phase: self.phase,
            failure: self.failure@,
        }
    }
}

impl Walker {
    #[verifier::type_invariant]
    spec fn inv(self) -> bool {
        self@.wf()
    }

    /// Begins a traversal of the directory at `root`, leaving out the
    /// names in `exclude`.
    pub fn new(root: String, exclude: Vec<String>) -> (walker: Walker)
        ensures
            walker@ == WalkerView::initial(root@, exclude.deep_view()),
            walker@.wf(),
    {
        let walker = Walker {
            root,
            exclude,
            frames: Vec::new(),
            path_last: Vec::new(),
            phase: Phase::Listing,
            failure: String::new(),
        };
        assert(walker.frames.deep_view() == Seq::<FrameView>::empty());
        walker
    }

    /// What the walker is waiting for.
    pub fn phase(&self) -> (phase: Phase)
        ensures
            phase == self@.phase,
    {
        self.phase
    }

    /// How many directories have been entered and not yet left.
    pub fn depth(&self) -> (depth: usize)
        ensures
            depth == self@.frames.len(),
    {
        self.frames.len()
    }

    /// The is-last stack.
    pub fn path_last(&self) -> (flags: &[bool])
        ensures
            flags@ == self@.path_last,
    {
        self.path_last.as_slice()
    }

    /// What the walker needs next.
    pub fn request(&self) -> (request: Request)
        ensures
            request@ == self@.request(),
    {
        proof {
            use_type_invariant(self);
        }
        match self.phase {
            Phase::Listing => {
                if self.frames.len() == 0 {
                    Request::List(self.root.clone())
                } else {
                    let above = &self.frames[self.frames.len() - 1];
                    Request::List(above.entries[above.index].path.clone())
                }
            },
            Phase::Probing => {
                let above = &self.frames[self.frames.len() - 1];
                Request::Probe(above.entries[above.index].path.clone())
            },
            Phase::Finished => Request::Done,
            Phase::Aborted => Request::Abort(self.failure.clone()),
        }
    }

    /// Takes the reply to the last request, moves on, and gives the line to
    /// write, if the reply calls for one.
    pub fn step(self, reply: Reply) -> (after: (Walker, Option<String>))
        ensures
            after.0@ == self@.step(reply@),
            after.0@.wf(),
            match after.1 {
                Some(line) => self@.emitted(reply@) == Some(line@),
                None => self@.emitted(reply@) is None,
            },
    {
        proof {
            use_type_invariant(&self);
        }
        let ghost before = self@;
        let Walker { root, exclude, mut frames, mut path_last, phase, failure } = self;
        match phase {
            Phase::Listing => match reply {
                Reply::Listed(raw) => {
                    let entries = list_entries(raw, exclude.as_slice());
                    if entries.len() == 0 {
                        (leave(root, exclude, frames, path_last, phase, failure), None)
                    } else {
                        proof {
                            lemma_first_frame_wf(raw.deep_view(), exclude.deep_view());
                        }
                        frames.push(Frame { entries, index: 0 });
                        assert(frames.deep_view() == before.frames.push(
                            FrameView { entries: entries.deep_view(), index: 0 },
                        ));
                        (
                            Walker {
                                root,
                                exclude,
                                frames,
                                path_last,
                                phase: Phase::Probing,
                                failure,
                            },
                            None,
                        )
                    }
                },
                Reply::Unreadable(message) => (
                    Walker {
                        root,
                        exclude,
                        frames,
                        path_last,
                        phase: Phase::Aborted,
                        failure: message,
                    },
                    None,
                ),
                Reply::Kind(_) => (
                    Walker { root, exclude, frames, path_last, phase, failure },
                    None,
                ),
            },
            Phase::Probing => match reply {
                Reply::Kind(is_dir) => {
                    let above = &frames[frames.len() - 1];
                    assert(above.index < above.entries.len());
                    let is_last = above.index + 1 == above.entries.len();
                    path_last.push(is_last);
                    let prefix = create_indentation(frames.len(), path_last.as_slice());
                    let line = indented_line(
                        above.entries[above.index].name.as_str(),
                        is_dir,
                        prefix.as_str(),
                    );
                    if is_dir {
                        (
                            Walker {
                                root,
                                exclude,
                                frames,
                                path_last,
                                phase: Phase::Listing,
                                failure,
                            },
                            Some(line),
                        )
                    } else {
                        (
                            leave(root, exclude, frames, path_last, Phase::Listing, failure),
                            Some(line),
                        )
                    }
                },
                _ => (Walker { root, exclude, frames, path_last, phase, failure }, None),
            },
            _ => (Walker { root, exclude, frames, path_last, phase, failure }, None),
        }
    }
}

/// The state that the parts of a walker stand for.
spec fn assembled(
    root: String,
    exclude: Vec<String>,
    frames: Vec<Frame>,
    path_last: Vec<bool>,
    phase: Phase,
    failure: String,
) -> WalkerView {
    WalkerView {
        root: root@,
        exclude: exclude.deep_view(),
        frames: frames.deep_view(),
        path_last: path_last@,
        phase,
        failure: failure@,
    }
}

/// Leaves the directory that was last entered, and those above it that
/// have no entry left.
fn leave(
    root: String,
    exclude: Vec<String>,
    frames: Vec<Frame>,
    path_last: Vec<bool>,
    phase: Phase,
    failure: String,
) -> (walker: Walker)
    requires
        phase == Phase::Listing,
        assembled(root, exclude, frames, path_last, phase, failure).wf(),
    ensures
        walker@ == assembled(root, exclude, frames, path_last, phase, failure).leave(),
        walker@.wf(),
{
    let ghost start = assembled(root, exclude, frames, path_last, phase, failure);
    let mut open_frames = frames;
    let mut flags = path_last;
    loop
        invariant
            phase == Phase::Listing,
            start == assembled(root, exclude, frames, path_last, phase, failure),
            assembled(root, exclude, open_frames, flags, phase, failure).wf(),
            assembled(root, exclude, open_frames, flags, phase, failure).leave() == start.leave(),
        decreases open_frames.len(),
    {
        let ghost here = assembled(root, exclude, open_frames, flags, phase, failure);
        if open_frames.len() == 0 {
            return Walker {
                root,
                exclude,
                frames: open_frames,
                path_last: flags,
                phase: Phase::Finished,
                failure,
            };
        }
        let mut above = open_frames.pop().unwrap();
        assert(above.index < above.entries.len());
        flags.pop();
        assert(open_frames.deep_view() == here.frames.drop_last());
        if above.index + 1 < above.entries.len() {
            above.index = above.index + 1;
            open_frames.push(above);
            assert(open_frames.deep_view() == here.frames.drop_last().push(
                here.frames.last().advanced(),
            ));
            return Walker {
                root,
                exclude,
                frames: open_frames,
                path_last: flags,
                phase: Phase::Probing,
                failure,
            };
        }
    }
}

} // verus!
