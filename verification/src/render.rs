//! Whole renderings: what a caller writes who takes a walk to its end, and
//! what holds of it under every setting and for every listing.

use crate::entry::EntryView;
use crate::error::ErrorView;
use crate::filter::{lemma_filter_all, lemma_filter_member, lemma_filter_order};
use crate::line::root_line;
use crate::order::name_before;
use crate::sort::{lemma_sort_orders, sort_listing};
use crate::tree::Config;
use crate::walk::{
    passes, shown, siblings, Answer, PendingView, RequestView, StepView, WalkView,
};
use vstd::prelude::*;

verus! {

/// How a rendering ended.
pub enum End {
    /// Everything within the depth limit has been shown.
    Finished,
    /// A listing failed, or the root was not there.
    Failed { error: ErrorView },
    /// The walk asked for the listing of `path` and no answer was left.
    Waiting { path: Seq<char> },
}

/// The lines written in the course of a rendering, and how it ended.
pub struct Rendering {
    pub lines: Seq<Seq<char>>,
    pub end: End,
}

impl Rendering {
    /// The same rendering with `text` written first.
    pub open spec fn after(self, text: Seq<char>) -> Rendering {
        Rendering { lines: seq![text] + self.lines, end: self.end }
    }
}

impl StepView {
    /// A bound on the steps that can follow before a listing is needed.
    pub open spec fn weight(self) -> nat {
        match self {
            StepView::Finished => 0,
            StepView::Line { text, walk } => walk.agenda.len() + 1,
            StepView::Open { text, request } => request.walk.agenda.len() + 1,
        }
    }
}

/// What a caller writes who starts with `step`, writes the line of every
/// step, answers each request for a listing with the next of `answers`, and
/// stops when the walk has finished, a listing has failed, or a request
/// finds no answer left.
pub open spec fn run(step: StepView, answers: Seq<Answer>) -> Rendering
    decreases answers.len(), step.weight(),
{
    match step {
        StepView::Finished => Rendering { lines: Seq::empty(), end: End::Finished },
        StepView::Line { text, walk } => run(walk.step(), answers).after(text),
        StepView::Open { text, request } => answered(request, answers).after(text),
    }
}

/// What the caller writes from a request for a listing on: nothing more if
/// no answer is left or the listing failed, and else what the walk gives
/// that has taken the listing.
pub open spec fn answered(request: RequestView, answers: Seq<Answer>) -> Rendering
    decreases answers.len(), 0nat,
{
    if answers.len() == 0 {
        Rendering { lines: Seq::empty(), end: End::Waiting { path: request.path } }
    } else {
        match request.supply(answers[0]) {
            Err(error) => Rendering { lines: Seq::empty(), end: End::Failed { error } },
            Ok(walk) => run(walk.step(), answers.drop_first()),
        }
    }
}

/// The whole rendering of the tree below `path`, by a caller who finds the
/// listings in `answers`, in the order in which the walk asks for them.
pub open spec fn render(
    config: Config,
    path: Seq<char>,
    base_name: Seq<char>,
    exists: bool,
    answers: Seq<Answer>,
) -> Rendering {
    match config.start(path, base_name, exists) {
        Err(error) => Rendering { lines: Seq::empty(), end: End::Failed { error } },
        Ok(step) => run(step, answers),
    }
}

/// Every entry that a listing puts on the agenda passes the filter and
/// carries the prefix that the listing was asked for.
pub proof fn lemma_shown_entries(
    config: Config,
    sorted: Seq<EntryView>,
    prefix: Seq<char>,
    a: int,
)
    requires
        0 <= a < shown(config, sorted, prefix).len(),
    ensures
        config.shows(shown(config, sorted, prefix)[a].entry.is_dir),
        shown(config, sorted, prefix)[a].prefix == prefix,
        exists|i: int|
            0 <= i < sorted.len() && shown(config, sorted, prefix)[a] == #[trigger] siblings(
                sorted,
                prefix,
            )[i],
{
    lemma_filter_member(siblings(sorted, prefix), passes(config), a);
}

/// The mark of the last goes by the listing, not by what is shown of it:
/// the entry that carries it is the last of the whole listing. Where the
/// filter leaves that one out, no entry carries the mark.
pub proof fn lemma_last_mark_goes_by_listing(
    config: Config,
    sorted: Seq<EntryView>,
    prefix: Seq<char>,
    a: int,
)
    requires
        0 <= a < shown(config, sorted, prefix).len(),
        shown(config, sorted, prefix)[a].is_last,
    ensures
        sorted.len() > 0,
        shown(config, sorted, prefix)[a].entry == sorted.last(),
        config.shows(sorted.last().is_dir),
{
    lemma_shown_entries(config, sorted, prefix, a);
}

/// A listing is shown in the order of its names, whatever the filter
/// leaves out.
pub proof fn lemma_shown_in_name_order(
    config: Config,
    entries: Seq<EntryView>,
    prefix: Seq<char>,
    a: int,
    b: int,
)
    requires
        0 <= a < b < shown(config, sort_listing(entries), prefix).len(),
    ensures
        !name_before(
            shown(config, sort_listing(entries), prefix)[b].entry.name,
            shown(config, sort_listing(entries), prefix)[a].entry.name,
        ),
{
    let sorted = sort_listing(entries);
    let all = siblings(sorted, prefix);
    lemma_filter_order(all, passes(config), a, b);
    let (i, j) = choose|i: int, j: int|
        0 <= i < j < all.len() && #[trigger] all[i] == all.filter(passes(config))[a]
            && #[trigger] all[j] == all.filter(passes(config))[b];
    lemma_sort_orders(entries);
    assert(!name_before(sorted[j].name, sorted[i].name));
}

/// With both flags set, or neither, a listing is shown whole.
pub proof fn lemma_equal_flags_show_all(config: Config, sorted: Seq<EntryView>, prefix: Seq<char>)
    requires
        config.show_files == config.show_dirs,
    ensures
        shown(config, sorted, prefix) == siblings(sorted, prefix),
{
    lemma_filter_all(siblings(sorted, prefix), passes(config));
}

/// A step leaves a well-formed walk well-formed.
pub proof fn lemma_step_keeps_wf(walk: WalkView)
    requires
        walk.wf(),
    ensures
        walk.step().wf(),
{
    if walk.agenda.len() > 0 {
        let rest = WalkView { config: walk.config, agenda: walk.agenda.drop_first() };
        assert forall|i: int| 0 <= i < rest.agenda.len() implies walk.config.admits(
            #[trigger] rest.agenda[i],
        ) by {
            assert(rest.agenda[i] == walk.agenda[i + 1]);
        }
    }
}

/// A listing leaves a well-formed walk well-formed.
pub proof fn lemma_supply_keeps_wf(request: RequestView, answer: Answer)
    requires
        request.wf(),
    ensures
        request.supply(answer) matches Ok(walk) ==> walk.wf(),
{
    if let Ok(entries) = answer {
        let config = request.walk.config;
        let fresh = shown(config, sort_listing(entries), request.prefix);
        let walk = request.supply(answer)->Ok_0;
        assert forall|i: int| 0 <= i < walk.agenda.len() implies config.admits(
            #[trigger] walk.agenda[i],
        ) by {
            if i < fresh.len() {
                lemma_shown_entries(config, sort_listing(entries), request.prefix, i);
            } else {
                assert(walk.agenda[i] == request.walk.agenda[i - fresh.len()]);
            }
        }
    }
}

/// Whether `text` is the line of an entry that passes the filter of
/// `config` and sits within its depth limit.
pub open spec fn is_entry_line(config: Config, text: Seq<char>) -> bool {
    exists|p: PendingView| config.admits(p) && text == #[trigger] p.line()
}

/// Every line written in the course of a walk is the line of an entry that
/// passes the filter and sits within the depth limit, whatever the listings
/// hold.
pub proof fn lemma_run_writes_entry_lines(walk: WalkView, answers: Seq<Answer>)
    requires
        walk.wf(),
    ensures
        forall|i: int|
            0 <= i < run(walk.step(), answers).lines.len() ==> is_entry_line(
                walk.config,
                #[trigger] run(walk.step(), answers).lines[i],
            ),
    decreases answers.len(), walk.agenda.len() + 1,
{
    let out = run(walk.step(), answers);
    lemma_step_keeps_wf(walk);
    if walk.agenda.len() > 0 {
        let next = walk.agenda[0];
        assert(is_entry_line(walk.config, next.line()));
        let tail = match walk.step() {
            StepView::Finished => out,
            StepView::Line { text, walk: rest } => {
                lemma_run_writes_entry_lines(rest, answers);
                run(rest.step(), answers)
            },
            StepView::Open { text, request } => {
                lemma_answered_writes_entry_lines(request, answers);
                answered(request, answers)
            },
        };
        assert forall|i: int| 0 <= i < out.lines.len() implies is_entry_line(
            walk.config,
            #[trigger] out.lines[i],
        ) by {
            if i > 0 {
                assert(out.lines[i] == tail.lines[i - 1]);
            }
        }
    }
}

/// The same of what is written from a request for a listing on.
pub proof fn lemma_answered_writes_entry_lines(request: RequestView, answers: Seq<Answer>)
    requires
        request.wf(),
    ensures
        forall|i: int|
            0 <= i < answered(request, answers).lines.len() ==> is_entry_line(
                request.walk.config,
                #[trigger] answered(request, answers).lines[i],
            ),
    decreases answers.len(), 0nat,
{
    if answers.len() > 0 {
        lemma_supply_keeps_wf(request, answers[0]);
        if let Ok(below) = request.supply(answers[0]) {
            lemma_run_writes_entry_lines(below, answers.drop_first());
        }
    }
}

/// The lines of the agenda, one after the other, when nothing on it will be
/// opened: no listing is asked for, and the walk finishes.
proof fn lemma_run_without_opening(walk: WalkView, answers: Seq<Answer>)
    requires
        forall|i: int|
            0 <= i < walk.agenda.len() ==> !(#[trigger] walk.agenda[i]).entry.is_dir
                || !walk.config.opens(walk.agenda[i].depth() + 1),
    ensures
        run(walk.step(), answers) == (Rendering {
            lines: walk.agenda.map_values(|p: PendingView| p.line()),
            end: End::Finished,
        }),
    decreases walk.agenda.len(),
{
    let lines = walk.agenda.map_values(|p: PendingView| p.line());
    if walk.agenda.len() == 0 {
        assert(lines == Seq::<Seq<char>>::empty());
    } else {
        let rest = WalkView { config: walk.config, agenda: walk.agenda.drop_first() };
        assert forall|i: int| 0 <= i < rest.agenda.len() implies !(#[trigger] rest.agenda[i])
            .entry.is_dir || !rest.config.opens(rest.agenda[i].depth() + 1) by {
            assert(rest.agenda[i] == walk.agenda[i + 1]);
        }
        lemma_run_without_opening(rest, answers);
        assert(walk.agenda[0].line() == lines[0]);
        assert(seq![lines[0]] + rest.agenda.map_values(|p: PendingView| p.line()) == lines);
    }
}

/// The first line is the root's, whatever the settings and the listings.
pub proof fn lemma_root_line_first(
    config: Config,
    path: Seq<char>,
    base_name: Seq<char>,
    answers: Seq<Answer>,
)
    ensures
        render(config, path, base_name, true, answers).lines.len() >= 1,
        render(config, path, base_name, true, answers).lines[0] == root_line(base_name),
{
}

/// A root that is not there is not rendered: nothing is written, and the
/// error names the path.
pub proof fn lemma_missing_root_writes_nothing(
    config: Config,
    path: Seq<char>,
    base_name: Seq<char>,
    answers: Seq<Answer>,
)
    ensures
        render(config, path, base_name, false, answers) == (Rendering {
            lines: Seq::empty(),
            end: End::Failed { error: ErrorView::PathNotFound { path } },
        }),
        (ErrorView::PathNotFound { path }).message() == "Path does not exist: "@ + path,
{
}

/// With a depth limit of zero the root's line is all there is, and no
/// listing is asked for.
pub proof fn lemma_depth_zero_shows_root_only(
    config: Config,
    path: Seq<char>,
    base_name: Seq<char>,
    answers: Seq<Answer>,
)
    requires
        config.max_depth == Some(0nat),
    ensures
        render(config, path, base_name, true, answers) == (Rendering {
            lines: seq![root_line(base_name)],
            end: End::Finished,
        }),
{
    let walk = WalkView { config, agenda: Seq::empty() };
    lemma_run_without_opening(walk, answers);
}

/// An empty root directory gives the root's line and nothing else.
pub proof fn lemma_empty_root_shows_root_only(
    config: Config,
    path: Seq<char>,
    base_name: Seq<char>,
    answers: Seq<Answer>,
)
    requires
        answers.len() > 0,
        answers[0] == Ok::<Seq<EntryView>, Seq<char>>(Seq::empty()),
    ensures
        render(config, path, base_name, true, answers) == (Rendering {
            lines: seq![root_line(base_name)],
            end: End::Finished,
        }),
{
    let walk = WalkView { config, agenda: Seq::empty() };
    lemma_run_without_opening(walk, answers);
    lemma_run_without_opening(walk, answers.drop_first());
    if config.opens(0) {
        let none = Seq::<EntryView>::empty();
        assert(shown(config, none, Seq::empty()) == Seq::<PendingView>::empty()) by {
            reveal(Seq::filter);
        }
        let request = RequestView { walk, path, prefix: Seq::empty() };
        assert(request.supply(answers[0])->Ok_0 == walk);
        assert(answered(request, answers) == run(walk.step(), answers.drop_first()));
    }
}

/// Every line below the root's is the line of an entry that passes the
/// filter and sits within the depth limit.
pub proof fn lemma_render_writes_entry_lines(
    config: Config,
    path: Seq<char>,
    base_name: Seq<char>,
    exists: bool,
    answers: Seq<Answer>,
)
    ensures
        forall|i: int|
            1 <= i < render(config, path, base_name, exists, answers).lines.len()
                ==> is_entry_line(
                config,
                #[trigger] render(config, path, base_name, exists, answers).lines[i],
            ),
{
    let out = render(config, path, base_name, exists, answers);
    let walk = WalkView { config, agenda: Seq::empty() };
    if exists {
        let tail = if config.opens(0) {
            let request = RequestView { walk, path, prefix: Seq::empty() };
            lemma_answered_writes_entry_lines(request, answers);
            answered(request, answers)
        } else {
            lemma_run_writes_entry_lines(walk, answers);
            run(walk.step(), answers)
        };
        assert forall|i: int| 1 <= i < out.lines.len() implies is_entry_line(
            config,
            #[trigger] out.lines[i],
        ) by {
            assert(out.lines[i] == tail.lines[i - 1]);
        }
    }
}

/// No line sits deeper than the depth limit allows: below the root's line,
/// each is the line of an entry whose prefix is shorter than four
/// characters for every level of the limit.
pub proof fn lemma_depth_limit_holds(
    config: Config,
    path: Seq<char>,
    base_name: Seq<char>,
    exists: bool,
    answers: Seq<Answer>,
    limit: nat,
    i: int,
)
    requires
        config.max_depth == Some(limit),
        1 <= i < render(config, path, base_name, exists, answers).lines.len(),
    ensures
        exists|p: PendingView|
            render(config, path, base_name, exists, answers).lines[i] == #[trigger] p.line()
                && p.prefix.len() == 4 * p.depth() && p.depth() < limit,
{
    lemma_render_writes_entry_lines(config, path, base_name, exists, answers);
    let text = render(config, path, base_name, exists, answers).lines[i];
    let p = choose|p: PendingView| config.admits(p) && text == #[trigger] p.line();
    assert(text == p.line() && p.prefix.len() == 4 * p.depth() && p.depth() < limit);
}

/// With files only, no line below the root's is that of a directory.
pub proof fn lemma_files_only_shows_no_directory(
    config: Config,
    path: Seq<char>,
    base_name: Seq<char>,
    exists: bool,
    answers: Seq<Answer>,
    i: int,
)
    requires
        config.show_files && !config.show_dirs,
        1 <= i < render(config, path, base_name, exists, answers).lines.len(),
    ensures
        exists|p: PendingView|
            render(config, path, base_name, exists, answers).lines[i] == #[trigger] p.line()
                && !p.entry.is_dir,
{
    lemma_render_writes_entry_lines(config, path, base_name, exists, answers);
    let text = render(config, path, base_name, exists, answers).lines[i];
    let p = choose|p: PendingView| config.admits(p) && text == #[trigger] p.line();
    assert(text == p.line() && !p.entry.is_dir);
}

/// With directories only, no line below the root's is that of a file.
pub proof fn lemma_dirs_only_shows_no_file(
    config: Config,
    path: Seq<char>,
    base_name: Seq<char>,
    exists: bool,
    answers: Seq<Answer>,
    i: int,
)
    requires
        config.show_dirs && !config.show_files,
        1 <= i < render(config, path, base_name, exists, answers).lines.len(),
    ensures
        exists|p: PendingView|
            render(config, path, base_name, exists, answers).lines[i] == #[trigger] p.line()
                && p.entry.is_dir,
{
    lemma_render_writes_entry_lines(config, path, base_name, exists, answers);
    let text = render(config, path, base_name, exists, answers).lines[i];
    let p = choose|p: PendingView| config.admits(p) && text == #[trigger] p.line();
    assert(text == p.line() && p.entry.is_dir);
}

/// With files only, nothing below the root's own listing is ever shown or
/// even listed: the rendering is the root's line and the files of the
/// root, and the directories that the filter leaves out are not entered.
pub proof fn lemma_files_only_lists_root_only(
    config: Config,
    path: Seq<char>,
    base_name: Seq<char>,
    answers: Seq<Answer>,
    entries: Seq<EntryView>,
)
    requires
        config.show_files && !config.show_dirs,
        config.opens(0),
        answers.len() > 0,
        answers[0] == Ok::<Seq<EntryView>, Seq<char>>(entries),
    ensures
        render(config, path, base_name, true, answers) == (Rendering {
            lines: seq![root_line(base_name)] + shown(
                config,
                sort_listing(entries),
                Seq::empty(),
            ).map_values(|p: PendingView| p.line()),
            end: End::Finished,
        }),
{
    let walk = WalkView { config, agenda: Seq::empty() };
    let request = RequestView { walk, path, prefix: Seq::empty() };
    let below = request.supply(answers[0])->Ok_0;
    let fresh = shown(config, sort_listing(entries), Seq::empty());
    assert(below.agenda == fresh);
    assert forall|i: int| 0 <= i < below.agenda.len() implies !(#[trigger] below.agenda[i])
        .entry.is_dir || !below.config.opens(below.agenda[i].depth() + 1) by {
        lemma_shown_entries(config, sort_listing(entries), Seq::empty(), i);
    }
    lemma_run_without_opening(below, answers.drop_first());
    assert(answered(request, answers) == run(below.step(), answers.drop_first()));
}

} // verus!
