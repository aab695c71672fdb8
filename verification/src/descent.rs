//! The rendering told as a descent into the tree, directory by directory,
//! and the proof that a walk taken step by step writes the same.

use crate::entry::EntryView;
use crate::error::ErrorView;
use crate::filter::lemma_filter_suffix;
use crate::line::{child_prefix, entry_line, root_line};
use crate::render::{answered, render, run, End, Rendering};
use crate::sort::{lemma_sort_permutes, sort_listing};
use crate::tree::Config;
use crate::walk::{depth_of, passes, siblings, Answer, RequestView, WalkView};
use vstd::prelude::*;

verus! {

/// What the rendering of one part of the tree wrote, how it ended, and
/// which answers it left unused.
pub struct Part {
    pub lines: Seq<Seq<char>>,
    pub end: End,
    pub rest: Seq<Answer>,
}

/// The rendering of what lies in the directory at `path`, `depth` levels
/// below the root and behind `prefix`. Beyond the depth limit nothing is
/// listed and nothing written. Else the next answer is the directory's
/// listing: a failure ends the rendering, and the entries of a good listing
/// are rendered in the order of their names.
pub open spec fn render_children(
    config: Config,
    answers: Seq<Answer>,
    path: Seq<char>,
    prefix: Seq<char>,
    depth: nat,
) -> Part
    decreases answers.len(), 0nat,
{
    if !config.opens(depth) {
        Part { lines: Seq::empty(), end: End::Finished, rest: answers }
    } else if answers.len() == 0 {
        Part { lines: Seq::empty(), end: End::Waiting { path }, rest: answers }
    } else {
        match answers[0] {
            Err(reason) => Part {
                lines: Seq::empty(),
                end: End::Failed { error: ErrorView::DirectoryReadError { path, reason } },
                rest: answers.drop_first(),
            },
            Ok(entries) => render_entries(
                config,
                answers.drop_first(),
                sort_listing(entries),
                0,
                prefix,
                depth,
            ),
        }
    }
}

/// The rendering of the entries of an ordered listing from the one at
/// `from` on. An entry that the filter leaves out is passed over, with all
/// that lies below it. Of any other the line is written, with the mark of
/// the last if it is the last of the whole listing; a directory is then
/// rendered one level further down, behind a prefix that is longer by a bar
/// or by blanks; and the entries that follow come after that, unless a
/// listing failed or was not to be had.
pub open spec fn render_entries(
    config: Config,
    answers: Seq<Answer>,
    sorted: Seq<EntryView>,
    from: nat,
    prefix: Seq<char>,
    depth: nat,
) -> Part
    decreases answers.len(), sorted.len() - from + 1,
{
    if from >= sorted.len() {
        Part { lines: Seq::empty(), end: End::Finished, rest: answers }
    } else {
        let entry = sorted[from as int];
        let is_last = from == sorted.len() - 1;
        if !config.shows(entry.is_dir) {
            render_entries(config, answers, sorted, from + 1, prefix, depth)
        } else {
            let line = entry_line(prefix, is_last, entry);
            let below = if entry.is_dir {
                render_children(
                    config,
                    answers,
                    entry.path,
                    child_prefix(prefix, is_last),
                    depth + 1,
                )
            } else {
                Part { lines: Seq::empty(), end: End::Finished, rest: answers }
            };
            match below.end {
                End::Finished => {
                    // No more answers are left than there were; to say so
                    // here lets the definition be seen to end.
                    let left = if below.rest.len() <= answers.len() {
                        below.rest
                    } else {
                        answers
                    };
                    let others = render_entries(config, left, sorted, from + 1, prefix, depth);
                    Part {
                        lines: seq![line] + below.lines + others.lines,
                        end: others.end,
                        rest: others.rest,
                    }
                },
                _ => Part { lines: seq![line] + below.lines, end: below.end, rest: below.rest },
            }
        }
    }
}

/// The whole rendering of the tree below `path`, as a descent: the root's
/// line, and below it what lies in the root.
pub open spec fn render_descending(
    config: Config,
    path: Seq<char>,
    base_name: Seq<char>,
    exists: bool,
    answers: Seq<Answer>,
) -> Rendering {
    if !exists {
        Rendering {
            lines: Seq::empty(),
            end: End::Failed { error: ErrorView::PathNotFound { path } },
        }
    } else {
        let below = render_children(config, answers, path, Seq::empty(), 0);
        Rendering { lines: seq![root_line(base_name)] + below.lines, end: below.end }
    }
}

/// `part`, and after it, if it finished, what the walk writes that goes on
/// from `walk` with the answers that `part` left.
pub open spec fn followed_by(part: Part, walk: WalkView) -> Rendering {
    match part.end {
        End::Finished => Rendering {
            lines: part.lines + run(walk.step(), part.rest).lines,
            end: run(walk.step(), part.rest).end,
        },
        _ => Rendering { lines: part.lines, end: part.end },
    }
}

/// The entries of an ordered listing from the one at `from` on that pass
/// the filter, as they stand on the agenda, and behind them the agenda of
/// `then`.
pub open spec fn ahead_of(
    then: WalkView,
    sorted: Seq<EntryView>,
    from: nat,
    prefix: Seq<char>,
) -> WalkView {
    WalkView {
        config: then.config,
        agenda: siblings(sorted, prefix).skip(from as int).filter(passes(then.config))
            + then.agenda,
    }
}

/// What the descent writes for an entry that is shown, by what lies below
/// it.
proof fn lemma_entry_unfolds(
    config: Config,
    answers: Seq<Answer>,
    sorted: Seq<EntryView>,
    from: nat,
    prefix: Seq<char>,
    depth: nat,
)
    requires
        from < sorted.len(),
        config.shows(sorted[from as int].is_dir),
    ensures
        ({
            let entry = sorted[from as int];
            let is_last = from == sorted.len() - 1;
            let line = entry_line(prefix, is_last, entry);
            let part = render_entries(config, answers, sorted, from, prefix, depth);
            let below = render_children(
                config,
                answers,
                entry.path,
                child_prefix(prefix, is_last),
                depth + 1,
            );
            if !(entry.is_dir && config.opens(depth + 1)) {
                let others = render_entries(config, answers, sorted, from + 1, prefix, depth);
                part == (Part {
                    lines: seq![line] + others.lines,
                    end: others.end,
                    rest: others.rest,
                })
            } else if below.end is Finished && below.rest.len() <= answers.len() {
                let others = render_entries(config, below.rest, sorted, from + 1, prefix, depth);
                part == (Part {
                    lines: seq![line] + below.lines + others.lines,
                    end: others.end,
                    rest: others.rest,
                })
            } else if below.end is Finished {
                true
            } else {
                part == (Part { lines: seq![line] + below.lines, end: below.end, rest: below.rest })
            }
        }),
{
}

/// A walk that has the entries of a listing at the front of its agenda
/// writes for them what the descent into them writes, and goes on from there
/// with the answers that the descent left.
pub proof fn lemma_walk_descends(
    then: WalkView,
    answers: Seq<Answer>,
    sorted: Seq<EntryView>,
    from: nat,
    prefix: Seq<char>,
    depth: nat,
)
    requires
        from <= sorted.len(),
        depth_of(prefix) == depth,
    ensures
        run(ahead_of(then, sorted, from, prefix).step(), answers) == followed_by(
            render_entries(then.config, answers, sorted, from, prefix, depth),
            then,
        ),
        render_entries(then.config, answers, sorted, from, prefix, depth).rest.len()
            <= answers.len(),
    decreases answers.len(), sorted.len() - from,
{
    let config = then.config;
    let walk = ahead_of(then, sorted, from, prefix);
    let all = siblings(sorted, prefix);
    lemma_filter_suffix(all, from as int, passes(config));
    if from < sorted.len() {
        let next = ahead_of(then, sorted, from + 1, prefix);
        if !config.shows(sorted[from as int].is_dir) {
            lemma_walk_descends(then, answers, sorted, from + 1, prefix, depth);
        } else {
            let first = all[from as int];
            let line = first.line();
            assert(walk.agenda.drop_first() == next.agenda);
            lemma_entry_unfolds(config, answers, sorted, from, prefix, depth);
            if first.entry.is_dir && config.opens(depth + 1) {
                let request = RequestView {
                    walk: next,
                    path: first.entry.path,
                    prefix: first.below(),
                };
                let below = render_children(
                    config,
                    answers,
                    first.entry.path,
                    first.below(),
                    depth + 1,
                );
                lemma_request_descends(request, answers, depth + 1);
                if below.end is Finished {
                    lemma_walk_descends(then, below.rest, sorted, from + 1, prefix, depth);
                    let others = render_entries(
                        config,
                        below.rest,
                        sorted,
                        from + 1,
                        prefix,
                        depth,
                    );
                    lemma_joins(line, below.lines, others, then);
                }
            } else {
                lemma_walk_descends(then, answers, sorted, from + 1, prefix, depth);
                let others = render_entries(config, answers, sorted, from + 1, prefix, depth);
                lemma_joins(line, Seq::empty(), others, then);
            }
        }
    }
}

/// From a request for a listing on, a walk writes what the descent into
/// the directory writes, and goes on from there with the answers that the
/// descent left.
pub proof fn lemma_request_descends(request: RequestView, answers: Seq<Answer>, depth: nat)
    requires
        depth_of(request.prefix) == depth,
        request.walk.config.opens(depth),
    ensures
        answered(request, answers) == followed_by(
            render_children(request.walk.config, answers, request.path, request.prefix, depth),
            request.walk,
        ),
        render_children(
            request.walk.config,
            answers,
            request.path,
            request.prefix,
            depth,
        ).rest.len() <= answers.len(),
    decreases answers.len(), 0nat,
{
    if answers.len() > 0 {
        if let Ok(listing) = answers[0] {
            let all = siblings(sort_listing(listing), request.prefix);
            assert(all.skip(0) == all);
            lemma_walk_descends(
                request.walk,
                answers.drop_first(),
                sort_listing(listing),
                0,
                request.prefix,
                depth,
            );
        }
    }
}

/// A line, what lies below it, and what comes after that, written one
/// after the other.
proof fn lemma_joins(line: Seq<char>, below: Seq<Seq<char>>, others: Part, then: WalkView)
    ensures
        followed_by(
            Part { lines: seq![line] + below + others.lines, end: others.end, rest: others.rest },
            then,
        ) == (Rendering {
            lines: below + followed_by(others, then).lines,
            end: followed_by(others, then).end,
        }).after(line),
{
    if others.end is Finished {
        let tail = run(then.step(), others.rest).lines;
        assert(seq![line] + below + others.lines + tail == seq![line] + (below + (others.lines
            + tail)));
    } else {
        assert(seq![line] + below + others.lines == seq![line] + (below + others.lines));
    }
}

/// Taking the walk step by step writes what the descent into the tree
/// writes, and ends as it ends.
pub proof fn lemma_walk_is_descent(
    config: Config,
    path: Seq<char>,
    base_name: Seq<char>,
    exists: bool,
    answers: Seq<Answer>,
)
    ensures
        render(config, path, base_name, exists, answers) == render_descending(
            config,
            path,
            base_name,
            exists,
            answers,
        ),
{
    let none = WalkView { config, agenda: Seq::empty() };
    let below = render_children(config, answers, path, Seq::empty(), 0);
    assert(run(none.step(), below.rest).lines == Seq::<Seq<char>>::empty());
    if exists && config.opens(0) {
        lemma_request_descends(RequestView { walk: none, path, prefix: Seq::empty() }, answers, 0);
    }
}

/// A rendering that finishes leaves out no entry that passes the filter:
/// the rendering of a listing from `from` on has the line of each such
/// entry from there on.
pub proof fn lemma_finished_listing_shows_entries(
    config: Config,
    answers: Seq<Answer>,
    sorted: Seq<EntryView>,
    from: nat,
    prefix: Seq<char>,
    depth: nat,
    i: int,
)
    requires
        from <= i < sorted.len(),
        config.shows(sorted[i].is_dir),
        render_entries(config, answers, sorted, from, prefix, depth).end is Finished,
    ensures
        render_entries(config, answers, sorted, from, prefix, depth).lines.contains(
            entry_line(prefix, i == sorted.len() - 1, sorted[i]),
        ),
    decreases sorted.len() - from,
{
    let part = render_entries(config, answers, sorted, from, prefix, depth);
    let entry = sorted[from as int];
    let is_last = from == sorted.len() - 1;
    let wanted = entry_line(prefix, i == sorted.len() - 1, sorted[i]);
    if !config.shows(entry.is_dir) {
        lemma_finished_listing_shows_entries(config, answers, sorted, from + 1, prefix, depth, i);
    } else {
        let below = if entry.is_dir {
            render_children(config, answers, entry.path, child_prefix(prefix, is_last), depth + 1)
        } else {
            Part { lines: Seq::empty(), end: End::Finished, rest: answers }
        };
        let left = if below.rest.len() <= answers.len() {
            below.rest
        } else {
            answers
        };
        let others = render_entries(config, left, sorted, from + 1, prefix, depth);
        let front = seq![entry_line(prefix, is_last, entry)] + below.lines;
        assert(part.lines == front + others.lines);
        if i == from {
            assert(part.lines[0] == wanted);
        } else {
            lemma_finished_listing_shows_entries(config, left, sorted, from + 1, prefix, depth, i);
            let k = choose|k: int| 0 <= k < others.lines.len() && others.lines[k] == wanted;
            assert(part.lines[front.len() + k] == wanted);
        }
    }
}

/// A rendering that finishes shows every entry of the root that passes the
/// filter; with both flags set, or neither, that is every entry.
pub proof fn lemma_finished_rendering_shows_root_entries(
    config: Config,
    path: Seq<char>,
    base_name: Seq<char>,
    answers: Seq<Answer>,
    entries: Seq<EntryView>,
    i: int,
)
    requires
        config.opens(0),
        answers.len() > 0,
        answers[0] == Ok::<Seq<EntryView>, Seq<char>>(entries),
        render(config, path, base_name, true, answers).end is Finished,
        0 <= i < entries.len(),
        config.shows(sort_listing(entries)[i].is_dir),
    ensures
        sort_listing(entries).len() == entries.len(),
        render(config, path, base_name, true, answers).lines.contains(
            entry_line(Seq::empty(), i == entries.len() - 1, sort_listing(entries)[i]),
        ),
{
    let sorted = sort_listing(entries);
    let out = render(config, path, base_name, true, answers);
    let below = render_entries(config, answers.drop_first(), sorted, 0, Seq::empty(), 0);
    let wanted = entry_line(Seq::empty(), i == entries.len() - 1, sorted[i]);
    lemma_sort_permutes(entries);
    lemma_walk_is_descent(config, path, base_name, true, answers);
    lemma_finished_listing_shows_entries(
        config,
        answers.drop_first(),
        sorted,
        0,
        Seq::empty(),
        0,
        i,
    );
    let k = choose|k: int| 0 <= k < below.lines.len() && below.lines[k] == wanted;
    assert(out.lines[k + 1] == wanted);
}

} // verus!
