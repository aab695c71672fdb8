//! The walk through the tree, one entry at a time.
//!
//! A walk keeps an agenda of the entries that are still to be shown. A step
//! takes the next entry off the agenda and gives its line; for a directory
//! that is to be opened it also asks for the directory's listing, and the
//! entries of that listing go to the front of the agenda. So every entry is
//! followed by all that lies below it, and then by its next sibling.

use crate::entry::{listing_view, DirectoryEntry, EntryView};
use crate::error::{ErrorView, TreeError};
use crate::filter::lemma_filter_suffix;
use crate::line::{child_prefix, entry_line, extend_prefix, format_entry, format_root, root_line};
use crate::sort::{sort_entries, sort_listing};
use crate::tree::{Config, TreeDisplay};
use vstd::prelude::*;
use vstd::string::StringExecFns;

verus! {

/// How deep below the root the lines with this prefix sit: every level of
/// nesting adds four characters.
pub open spec fn depth_of(prefix: Seq<char>) -> nat {
    (prefix.len() / 4) as nat
}

/// What the caller found when it listed a directory: the entries, or the
/// reason why there are none.
pub type Answer = Result<Seq<EntryView>, Seq<char>>;

/// An entry that has passed the filter and waits to be shown.
pub struct PendingView {
    pub prefix: Seq<char>,
    pub is_last: bool,
    pub entry: EntryView,
}

impl PendingView {
    /// The line that shows the entry.
    pub open spec fn line(self) -> Seq<char> {
        entry_line(self.prefix, self.is_last, self.entry)
    }

    /// The depth at which the entry is shown.
    pub open spec fn depth(self) -> nat {
        depth_of(self.prefix)
    }

    /// The prefix of the lines below the entry.
    pub open spec fn below(self) -> Seq<char> {
        child_prefix(self.prefix, self.is_last)
    }
}

/// A walk between two steps: the settings and the entries that are still to
/// be shown, the next one first.
pub struct WalkView {
    pub config: Config,
    pub agenda: Seq<PendingView>,
}

/// A walk that waits for the listing of the directory at `path`, whose
/// entries will be shown behind `prefix`.
pub struct RequestView {
    pub walk: WalkView,
    pub path: Seq<char>,
    pub prefix: Seq<char>,
}

/// What a step of the walk yields.
pub enum StepView {
    /// Nothing is left to show.
    Finished,
    /// One line, with nothing to list for it.
    Line { text: Seq<char>, walk: WalkView },
    /// The line of a directory, the root or one below it, whose listing the
    /// walk needs next.
    Open { text: Seq<char>, request: RequestView },
}

/// The entries of an ordered listing as they would be shown behind `prefix`
/// if none were filtered out. The last one of the listing carries the mark
/// of the last, whether or not it passes the filter.
pub open spec fn siblings(sorted: Seq<EntryView>, prefix: Seq<char>) -> Seq<PendingView> {
    Seq::new(
        sorted.len(),
        |i: int| PendingView { prefix, is_last: i == sorted.len() - 1, entry: sorted[i] },
    )
}

/// The display filter as a test on waiting entries.
pub open spec fn passes(config: Config) -> spec_fn(PendingView) -> bool {
    |p: PendingView| config.shows(p.entry.is_dir)
}

/// The entries of an ordered listing that pass the filter, in display order.
pub open spec fn shown(config: Config, sorted: Seq<EntryView>, prefix: Seq<char>) -> Seq<
    PendingView,
> {
    siblings(sorted, prefix).filter(passes(config))
}

impl Config {
    /// Whether an entry on the agenda is in keeping with these settings: it
    /// passes the filter, sits on a whole level, and that level is within
    /// the depth limit.
    pub open spec fn admits(self, p: PendingView) -> bool {
        &&& self.shows(p.entry.is_dir)
        &&& p.prefix.len() % 4 == 0
        &&& self.opens(p.depth())
    }

    /// The first step of a rendering: the root's line, and with it the
    /// request for the root's listing unless the depth limit is zero.
    pub open spec fn start(self, path: Seq<char>, base_name: Seq<char>, exists: bool) -> Result<
        StepView,
        ErrorView,
    > {
        let walk = WalkView { config: self, agenda: Seq::empty() };
        if !exists {
            Err(ErrorView::PathNotFound { path })
        } else if self.opens(0) {
            Ok(
                StepView::Open {
                    text: root_line(base_name),
                    request: RequestView { walk, path, prefix: Seq::empty() },
                },
            )
        } else {
            Ok(StepView::Line { text: root_line(base_name), walk })
        }
    }
}

impl WalkView {
    /// Every entry on the agenda is in keeping with the settings.
    pub open spec fn wf(self) -> bool {
        forall|i: int| 0 <= i < self.agenda.len() ==> self.config.admits(#[trigger] self.agenda[i])
    }

    /// Shows the next entry of the agenda. A directory is opened if the
    /// level below it is within the depth limit.
    pub open spec fn step(self) -> StepView {
        if self.agenda.len() == 0 {
            StepView::Finished
        } else {
            let next = self.agenda[0];
            let walk = WalkView { config: self.config, agenda: self.agenda.drop_first() };
            if next.entry.is_dir && self.config.opens(next.depth() + 1) {
                StepView::Open {
                    text: next.line(),
                    request: RequestView { walk, path: next.entry.path, prefix: next.below() },
                }
            } else {
                StepView::Line { text: next.line(), walk }
            }
        }
    }
}

impl RequestView {
    /// The walk is well-formed, and the directory asked for lies on a whole
    /// level within the depth limit.
    pub open spec fn wf(self) -> bool {
        &&& self.walk.wf()
        &&& self.prefix.len() % 4 == 0
        &&& self.walk.config.opens(depth_of(self.prefix))
    }

    /// Takes the listing that was asked for. A failed listing ends the
    /// rendering; the entries of a good one go to the front of the agenda,
    /// ordered by name and filtered.
    pub open spec fn supply(self, listing: Answer) -> Result<WalkView, ErrorView> {
        match listing {
            Err(reason) => Err(ErrorView::DirectoryReadError { path: self.path, reason }),
            Ok(entries) => Ok(
                WalkView {
                    config: self.walk.config,
                    agenda: shown(self.walk.config, sort_listing(entries), self.prefix)
                        + self.walk.agenda,
                },
            ),
        }
    }
}

impl StepView {
    /// The walk or the request that the step hands on is well-formed.
    pub open spec fn wf(self) -> bool {
        match self {
            StepView::Finished => true,
            StepView::Line { text, walk } => walk.wf(),
            StepView::Open { text, request } => request.wf(),
        }
    }
}

/// An entry on the stack of a walk. `levels` counts the levels that may
/// still be opened below the entry's own children; it is `None` when the
/// depth is unlimited.
#[derive(Debug)]
struct Pending {
    prefix: String,
    is_last: bool,
    entry: DirectoryEntry,
    levels: Option<usize>,
}

impl View for Pending {
    type V = PendingView;

    closed spec fn view(&self) -> PendingView {
        PendingView { prefix: self.prefix@, is_last: self.is_last, entry: self.entry@ }
    }
}

impl Pending {
    /// The entry admits of the settings, and its count of levels is what
    /// the depth limit leaves at its depth.
    spec fn fits(self, config: Config) -> bool {
        &&& config.admits(self@)
        &&& match config.max_depth {
            Some(limit) => self.levels matches Some(n) && n + self@.depth() + 1 == limit,
            None => self.levels is None,
        }
    }
}

/// The agenda that a stack stands for: its entries, the top one first.
spec fn stack_view(stack: Seq<Pending>) -> Seq<PendingView> {
    stack.map_values(|p: Pending| p@).reverse()
}

/// Pushing an entry onto the stack puts it at the front of the agenda.
proof fn lemma_stack_view_push(stack: Seq<Pending>, item: Pending)
    ensures
        stack_view(stack.push(item)) == seq![item@] + stack_view(stack),
{
    let mapped = stack.map_values(|p: Pending| p@);
    assert(stack.push(item).map_values(|p: Pending| p@) == mapped.push(item@));
    assert(mapped.push(item@).reverse() == seq![item@] + mapped.reverse());
}

/// A rendering in progress, between two steps.
#[derive(Debug)]
pub struct TreeWalk {
    config: TreeDisplay,
    stack: Vec<Pending>,
}

impl View for TreeWalk {
    type V = WalkView;

    closed spec fn view(&self) -> WalkView {
        WalkView { config: self.config@, agenda: stack_view(self.stack@) }
    }
}

/// A rendering that waits for the listing of one directory.
#[derive(Debug)]
pub struct ListRequest {
    walk: TreeWalk,
    path: String,
    prefix: String,
    levels: Option<usize>,
}

impl View for ListRequest {
    type V = RequestView;

    closed spec fn view(&self) -> RequestView {
        RequestView { walk: self.walk@, path: self.path@, prefix: self.prefix@ }
    }
}

/// What a step of the walk yields.
#[derive(Debug)]
pub enum Step {
    /// Nothing is left to show.
    Finished,
    /// One line to write; the walk goes on with `walk`.
    Line { text: String, walk: TreeWalk },
    /// One line to write, and a directory to list before the walk goes on.
    Open { text: String, request: ListRequest },
}

impl View for Step {
    type V = StepView;

    open spec fn view(&self) -> StepView {
        match self {
            Step::Finished => StepView::Finished,
            Step::Line { text, walk } => StepView::Line { text: text@, walk: walk@ },
            Step::Open { text, request } => StepView::Open { text: text@, request: request@ },
        }
    }
}

/// A step or a walk, or the error in its place, as contracts see it.
pub open spec fn outcome_view<T: View, E: View>(outcome: Result<T, E>) -> Result<T::V, E::V> {
    match outcome {
        Ok(value) => Ok(value@),
        Err(error) => Err(error@),
    }
}

impl TreeDisplay {
    /// Begins the rendering of the tree below `path`. `base_name` is the
    /// last component of `path`, and `exists` says whether the caller found
    /// `path` to exist. The first step carries the root's line.
    pub fn display(&self, path: &str, base_name: &str, exists: bool) -> (first: Result<
        Step,
        TreeError,
    >)
        ensures
            outcome_view(first) == self@.start(path@, base_name@, exists),
            first matches Ok(step) ==> step@.wf(),
    {
        if !exists {
            return Err(TreeError::PathNotFound { path: String::from_str(path) });
        }
        let text = format_root(base_name);
        let walk = TreeWalk { config: *self, stack: Vec::new() };
        assert(walk@.agenda == Seq::<PendingView>::empty());
        match self.max_depth() {
            Some(0) => Ok(Step::Line { text, walk }),
            levels => {
                let request = ListRequest {
                    walk,
                    path: String::from_str(path),
                    prefix: String::new(),
                    levels,
                };
                Ok(Step::Open { text, request })
            },
        }
    }
}

impl TreeWalk {
    #[verifier::type_invariant]
    spec fn inv(self) -> bool {
        forall|i: int| 0 <= i < self.stack@.len() ==> (#[trigger] self.stack@[i]).fits(self.config@)
    }

    /// Takes the next entry off the agenda and gives its line.
    pub fn step(self) -> (step: Step)
        ensures
            step@ == self@.step(),
            self@.wf(),
            step@.wf(),
    {
        proof {
            use_type_invariant(&self);
        }
        let ghost before = self.stack@;
        let TreeWalk { config, mut stack } = self;
        match stack.pop() {
            None => Step::Finished,
            Some(next) => {
                proof {
                    assert(before[before.len() - 1] == next);
                    assert(next.fits(config@));
                    assert(stack_view(before)[0] == next@);
                    assert(stack_view(stack@) == stack_view(before).drop_first());
                    assert forall|i: int| 0 <= i < stack@.len() implies (#[trigger] stack@[i]).fits(
                        config@,
                    ) by {
                        assert(stack@[i] == before[i]);
                    }
                }
                let text = format_entry(next.prefix.as_str(), next.is_last, &next.entry);
                let walk = TreeWalk { config, stack };
                let open = next.entry.is_dir && match next.levels {
                    Some(levels) => levels > 0,
                    None => true,
                };
                if open {
                    let prefix = extend_prefix(next.prefix.as_str(), next.is_last);
                    let request = ListRequest {
                        walk,
                        path: next.entry.full_path,
                        prefix,
                        levels: next.levels,
                    };
                    Step::Open { text, request }
                } else {
                    Step::Line { text, walk }
                }
            },
        }
    }
}

impl ListRequest {
    #[verifier::type_invariant]
    spec fn inv(self) -> bool {
        &&& self.walk.inv()
        &&& self@.wf()
        &&& match self.walk.config@.max_depth {
            Some(limit) => self.levels matches Some(n) && n + depth_of(self.prefix@) == limit,
            None => self.levels is None,
        }
    }

    /// The directory whose listing the walk waits for.
    pub fn path(&self) -> (path: &String)
        ensures
            path@ == self@.path,
    {
        &self.path
    }

    /// Hands the walk the listing it asked for, or the reason why the
    /// directory could not be listed.
    pub fn supply(self, listing: Result<Vec<DirectoryEntry>, String>) -> (result: Result<
        TreeWalk,
        TreeError,
    >)
        ensures
            outcome_view(result) == self@.supply(answer_view(listing)),
            self@.wf(),
            result matches Ok(walk) ==> walk@.wf(),
    {
        proof {
            use_type_invariant(&self);
            use_type_invariant(&self.walk);
        }
        let ListRequest { walk, path, prefix, levels } = self;
        match listing {
            Err(reason) => Err(TreeError::DirectoryReadError { path, reason }),
            Ok(entries) => {
                let TreeWalk { config, mut stack } = walk;
                let ghost before = stack@;
                let mut sorted = sort_entries(entries);
                let ghost all = siblings(listing_view(sorted@), prefix@);
                let count = sorted.len();
                let below = match levels {
                    Some(levels) => Some(levels - 1),
                    None => None,
                };
                proof {
                    lemma_filter_suffix(all, count as int, passes(config@));
                    assert(stack_view(before) == Seq::<PendingView>::empty() + stack_view(before));
                }
                while sorted.len() > 0
                    invariant
                        sorted@.len() <= count,
                        all.len() == count,
                        forall|i: int|
                            0 <= i < sorted@.len() ==> (#[trigger] sorted@[i])@ == all[i].entry,
                        forall|i: int|
                            0 <= i < count ==> (#[trigger] all[i]).prefix == prefix@
                                && all[i].is_last == (i == count - 1),
                        stack_view(stack@) == all.skip(sorted@.len() as int).filter(
                            passes(config@),
                        ) + stack_view(before),
                        forall|i: int|
                            0 <= i < stack@.len() ==> (#[trigger] stack@[i]).fits(config@),
                        prefix@.len() % 4 == 0,
                        config@.opens(depth_of(prefix@)),
                        match config@.max_depth {
                            Some(limit) => below matches Some(n) && n + depth_of(prefix@) + 1
                                == limit,
                            None => below is None,
                        },
                    decreases sorted@.len(),
                {
                    let ghost stacked = stack@;
                    let at = sorted.len() - 1;
                    let entry = sorted.pop().unwrap();
                    proof {
                        lemma_filter_suffix(all, at as int, passes(config@));
                    }
                    if config.should_show(entry.is_dir) {
                        let item = Pending {
                            prefix: prefix.clone(),
                            is_last: at + 1 == count,
                            entry,
                            levels: below,
                        };
                        assert(item@ == all[at as int]);
                        stack.push(item);
                        proof {
                            lemma_stack_view_push(stacked, item);
                        }
                    }
                }
                assert(all.skip(0) == all);
                Ok(TreeWalk { config, stack })
            },
        }
    }
}

/// A listing, or the reason why there is none, as contracts see it.
pub open spec fn answer_view(listing: Result<Vec<DirectoryEntry>, String>) -> Answer {
    match listing {
        Ok(entries) => Ok(listing_view(entries@)),
        Err(reason) => Err(reason@),
    }
}

} // verus!
