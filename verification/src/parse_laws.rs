//! What holds of every run that parses a file together with all that it includes.
use crate::ast::DtsFile;
use crate::data::{FileId, FileType, HasSource, HasSpan};
use crate::diagnostics::{io_error_view, DiagnosticView};
use crate::loader::LoadOutcome;
use crate::parse::{given_up_view, next_inclusion, FrameView, RunState, WaitingView};
use crate::project::{sentinel_view, ProjectFileView, ProjectView};
use vstd::prelude::*;

verus! {

/// What the caller of a run can hand back.
pub enum RunEvent {
    Parsed(Result<(DtsFile, Seq<DiagnosticView>), DiagnosticView>),
    Found(LoadOutcome),
    Read(Result<(Seq<char>, FileType), Seq<char>>),
}

impl RunState {
    /// A run at its start.
    pub open spec fn start(
        project: ProjectView,
        path: FileId,
        text: Seq<char>,
        file_type: FileType,
    ) -> RunState {
        RunState {
            project,
            stack: Seq::empty(),
            waiting: WaitingView::Parse { path, text, file_type, parent: None },
        }
    }

    /// Whether the run waits for an event.
    pub open spec fn awaits(self, event: RunEvent) -> bool {
        match event {
            RunEvent::Parsed(_) => self.waiting is Parse,
            RunEvent::Found(_) => self.waiting is Find,
            RunEvent::Read(_) => self.waiting is Read,
        }
    }

    /// After an event.
    pub open spec fn after(self, event: RunEvent) -> RunState {
        match event {
            RunEvent::Parsed(result) => self.after_parsed(result),
            RunEvent::Found(outcome) => self.after_found(outcome),
            RunEvent::Read(result) => self.after_read(result),
        }
    }

    /// Whether the run waits for each of some events when it comes.
    pub open spec fn awaits_all(self, events: Seq<RunEvent>) -> bool
        decreases events.len(),
    {
        events.len() == 0 || (self.awaits_all(events.drop_last()) && self.after_all(
            events.drop_last(),
        ).awaits(events.last()))
    }

    /// After some events.
    pub open spec fn after_all(self, events: Seq<RunEvent>) -> RunState
        decreases events.len(),
    {
        if events.len() == 0 {
            self
        } else {
            self.after_all(events.drop_last()).after(events.last())
        }
    }

    /// Whether the file that the run started with is still to be parsed.
    pub open spec fn at_start(self) -> bool {
        self.waiting is Parse && self.stack.len() == 0
    }
}

/// Whether the inclusions of a file are being followed.
pub open spec fn follows(stack: Seq<FrameView>, path: FileId) -> bool {
    exists|i: int| 0 <= i < stack.len() && (#[trigger] stack[i]).path == path
}

/// Whether a file was parsed, or the parser gave up on it.
pub open spec fn is_complete(file: ProjectFileView) -> bool {
    file.file is Some || file.parser_diagnostics.len() > 0
}

/// What holds of a run that started with a file on a project with the given files:
/// all other files that were there are as they were, no file is followed twice, and
/// whatever else is in the project is complete or being followed.
pub open spec fn run_holds(
    files: Map<FileId, ProjectFileView>,
    path: FileId,
    text: Seq<char>,
    file_type: FileType,
    state: RunState,
) -> bool {
    let now = state.project.files;
    &&& forall|other: FileId|
        files.contains_key(other) && other != path ==> #[trigger] now.contains_key(other)
            && now[other] == files[other]
    &&& forall|i: int, j: int|
        0 <= i < j < state.stack.len() ==> (#[trigger] state.stack[i]).path != (
        #[trigger] state.stack[j]).path
    &&& forall|i: int|
        0 <= i < state.stack.len() ==> now.contains_key((#[trigger] state.stack[i]).path) && (
        state.stack[i].path == path || !files.contains_key(state.stack[i].path))
    &&& forall|other: FileId| #[trigger]
        now.contains_key(other) ==> {
            ||| files.contains_key(other) && other != path
            ||| follows(state.stack, other)
            ||| is_complete(now[other])
            ||| other == path && state.at_start()
        }
    &&& state.stack.len() > 0 ==> state.stack[0].path == path && state.stack[0].text == text
        && state.stack[0].file_type == file_type
    &&& state.stack.len() == 0 && !state.at_start() ==> now.contains_key(path)
        && now[path].source == text && now[path].file_type == file_type
    &&& match state.waiting {
        WaitingView::Parse { path: next, text: t, file_type: k, .. } => if state.stack.len()
            == 0 {
            next == path && t == text && k == file_type
        } else {
            !now.contains_key(next)
        },
        WaitingView::Find => state.stack.len() > 0,
        WaitingView::Read(next) => state.stack.len() > 0 && !now.contains_key(next),
        WaitingView::Done => state.stack.len() == 0,
    }
}

/// A run that goes on, whatever it waited for.
spec fn going_on(state: RunState) -> RunState {
    RunState {
        waiting: if state.stack.len() == 0 {
            WaitingView::Done
        } else {
            WaitingView::Find
        },
        ..state
    }
}

/// A run after its topmost frame has become a file of the project.
spec fn without_top(state: RunState) -> RunState {
    let top = state.stack.last();
    RunState { stack: state.stack.drop_last(), ..state.with_file(top.path, top.finished()) }
}

/// A topmost frame that becomes a file of the project keeps what holds of a run.
proof fn lemma_without_top_holds(
    files: Map<FileId, ProjectFileView>,
    path: FileId,
    text: Seq<char>,
    file_type: FileType,
    state: RunState,
)
    requires
        run_holds(files, path, text, file_type, going_on(state)),
        state.stack.len() > 0,
    ensures
        run_holds(files, path, text, file_type, going_on(without_top(state))),
{
    let top = state.stack.last();
    let then = without_top(state);
    assert forall|other: FileId|
        follows(state.stack, other) && other != top.path implies follows(then.stack, other) by {
        let i = choose|i: int|
            0 <= i < state.stack.len() && (#[trigger] state.stack[i]).path == other;
        assert(then.stack[i].path == other);
    }
}

/// To go on keeps what holds of a run.
proof fn lemma_resumed_holds(
    files: Map<FileId, ProjectFileView>,
    path: FileId,
    text: Seq<char>,
    file_type: FileType,
    state: RunState,
)
    requires
        run_holds(files, path, text, file_type, going_on(state)),
    ensures
        run_holds(files, path, text, file_type, state.resumed()),
    decreases state.stack.len(),
{
    if state.stack.len() > 0 {
        let top = state.stack.last();
        match next_inclusion(top.file.elements@, top.next) {
            Some(next) => {
                lemma_new_top_holds(
                    files,
                    path,
                    text,
                    file_type,
                    going_on(state),
                    FrameView { next, ..top },
                    WaitingView::Find,
                );
            },
            None => {
                lemma_without_top_holds(files, path, text, file_type, state);
                lemma_resumed_holds(files, path, text, file_type, without_top(state));
            },
        }
    }
}

/// Each event keeps what holds of a run.
proof fn lemma_after_holds(
    files: Map<FileId, ProjectFileView>,
    path: FileId,
    text: Seq<char>,
    file_type: FileType,
    state: RunState,
    event: RunEvent,
)
    requires
        run_holds(files, path, text, file_type, state),
        state.awaits(event),
    ensures
        run_holds(files, path, text, file_type, state.after(event)),
{
    let top = state.stack.last();
    match event {
        RunEvent::Parsed(result) => {
            if let WaitingView::Parse { path: next, text: t, file_type: k, parent } =
                state.waiting {
                assert(!follows(state.stack, next)) by {
                    if follows(state.stack, next) {
                        let i = choose|i: int|
                            0 <= i < state.stack.len() && (#[trigger] state.stack[i]).path
                                == next;
                        assert(state.project.files.contains_key(state.stack[i].path));
                    }
                }
                match result {
                    Ok((file, diagnostics)) => {
                        let frame = FrameView {
                            path: next,
                            parent: state.parent_of(next, parent),
                            text: t,
                            file_type: k,
                            file,
                            diagnostics,
                            includes: Seq::empty(),
                            next: 0,
                        };
                        let then = RunState {
                            stack: state.stack.push(frame),
                            ..state.with_file(next, sentinel_view())
                        };
                        assert(then.stack[then.stack.len() - 1].path == next);
                        assert forall|other: FileId| follows(state.stack, other) implies follows(
                            then.stack,
                            other,
                        ) by {
                            let i = choose|i: int|
                                0 <= i < state.stack.len() && (#[trigger] state.stack[i]).path
                                    == other;
                            assert(then.stack[i].path == other);
                        }
                        lemma_resumed_holds(files, path, text, file_type, then);
                    },
                    Err(err) => {
                        let then = state.with_file(
                            next,
                            given_up_view(state.parent_of(next, parent), err, t, k),
                        );
                        assert forall|other: FileId| follows(state.stack, other) implies follows(
                            then.stack,
                            other,
                        ) by {
                            let i = choose|i: int|
                                0 <= i < state.stack.len() && (#[trigger] state.stack[i]).path
                                    == other;
                            assert(then.stack[i].path == other);
                        }
                        lemma_resumed_holds(files, path, text, file_type, then);
                    },
                }
            }
        },
        RunEvent::Found(outcome) => {
            let found = match outcome {
                Ok(loaded) => loaded.canonical,
                Err(_) => None,
            };
            let included = match found {
                Some(found) => FrameView { includes: top.includes.push(found), ..top },
                None => top,
            };
            if found is Some && !state.project.files.contains_key(found->0) {
                lemma_new_top_holds(
                    files,
                    path,
                    text,
                    file_type,
                    state,
                    included,
                    WaitingView::Read(found->0),
                );
            } else {
                let then = FrameView { next: top.next + 1, ..included };
                lemma_new_top_holds(files, path, text, file_type, state, then, WaitingView::Find);
                lemma_resumed_holds(files, path, text, file_type, state.with_top(then));
            }
        },
        RunEvent::Read(result) => {
            let then = match result {
                Ok(_) => FrameView { next: top.next + 1, ..top },
                Err(message) => FrameView {
                    diagnostics: top.diagnostics.push(
                        io_error_view(
                            (top.inclusion()->0).spec_span(),
                            (top.inclusion()->0).spec_source(),
                            message,
                        ),
                    ),
                    next: top.next + 1,
                    ..top
                },
            };
            if result is Err {
                lemma_new_top_holds(files, path, text, file_type, state, then, WaitingView::Find);
                lemma_resumed_holds(files, path, text, file_type, state.with_top(then));
            } else {
                lemma_new_top_holds(
                    files,
                    path,
                    text,
                    file_type,
                    state,
                    then,
                    state.after(event).waiting,
                );
            }
        },
    }
}

/// Whether what is to be done next is about a file that is not in the project.
spec fn brings_new(waiting: WaitingView, files: Map<FileId, ProjectFileView>) -> bool {
    match waiting {
        WaitingView::Parse { path, .. } => !files.contains_key(path),
        WaitingView::Read(path) => !files.contains_key(path),
        _ => false,
    }
}

/// Another topmost frame for the same file keeps what holds of a run.
proof fn lemma_new_top_holds(
    files: Map<FileId, ProjectFileView>,
    path: FileId,
    text: Seq<char>,
    file_type: FileType,
    state: RunState,
    frame: FrameView,
    waiting: WaitingView,
)
    requires
        run_holds(files, path, text, file_type, state),
        state.stack.len() > 0,
        frame.path == state.stack.last().path,
        frame.text == state.stack.last().text,
        frame.file_type == state.stack.last().file_type,
        waiting is Find || brings_new(waiting, state.project.files),
    ensures
        run_holds(
            files,
            path,
            text,
            file_type,
            RunState { waiting, ..state.with_top(frame) },
        ),
{
    let then = RunState { waiting, ..state.with_top(frame) };
    assert forall|i: int| 0 <= i < then.stack.len() implies (#[trigger] then.stack[i]).path
        == state.stack[i].path && then.stack[i].text == state.stack[i].text
        && then.stack[i].file_type == state.stack[i].file_type by {}
    assert forall|other: FileId| follows(state.stack, other) implies follows(then.stack, other) by {
        let i = choose|i: int|
            0 <= i < state.stack.len() && (#[trigger] state.stack[i]).path == other;
        assert(then.stack[i].path == other);
    }
}

/// Whatever the caller hands back, what holds of a run at its start holds all the
/// way: the other files of the project stay as they were, and no file is followed
/// twice.
pub proof fn lemma_run_holds(
    project: ProjectView,
    path: FileId,
    text: Seq<char>,
    file_type: FileType,
    events: Seq<RunEvent>,
)
    requires
        RunState::start(project, path, text, file_type).awaits_all(events),
    ensures
        run_holds(
            project.files,
            path,
            text,
            file_type,
            RunState::start(project, path, text, file_type).after_all(events),
        ),
    decreases events.len(),
{
    let start = RunState::start(project, path, text, file_type);
    if events.len() > 0 {
        lemma_run_holds(project, path, text, file_type, events.drop_last());
        lemma_after_holds(
            project.files,
            path,
            text,
            file_type,
            start.after_all(events.drop_last()),
            events.last(),
        );
    }
}

/// Once nothing is left to do, whatever the caller handed back: every file but the
/// one that the run started with is as it was, if it was in the project before; the
/// file that the run started with has the given text, is what the parser made of that text,
/// with all that the parser found and nothing of an earlier analysis; and no place-holder is
/// left.
pub proof fn lemma_finished_run(
    project: ProjectView,
    path: FileId,
    text: Seq<char>,
    file_type: FileType,
    events: Seq<RunEvent>,
)
    requires
        RunState::start(project, path, text, file_type).awaits_all(events),
        RunState::start(project, path, text, file_type).after_all(events).waiting is Done,
    ensures
        ({
            let now = RunState::start(project, path, text, file_type).after_all(
                events,
            ).project.files;
            &&& forall|other: FileId|
                project.files.contains_key(other) && other != path ==> #[trigger] now.contains_key(
                    other,
                ) && now[other] == project.files[other]
            &&& now.contains_key(path)
            &&& now[path].source == text
            &&& now[path].file_type == file_type
            &&& is_complete(now[path])
            &&& events.len() > 0
            &&& events[0] matches RunEvent::Parsed(result)
            &&& match result {
                Ok((file, said)) => now[path].file == Some(file) && said.is_prefix_of(
                    now[path].parser_diagnostics,
                ),
                Err(err) => now[path].file is None && now[path].parser_diagnostics == seq![err],
            }
            &&& now[path].analysis_diagnostics == Seq::<DiagnosticView>::empty()
            &&& now[path].status is NotAnalyzed
            &&& forall|other: FileId| #[trigger]
                now.contains_key(other) ==> project.files.contains_key(other) || is_complete(
                    now[other],
                )
        }),
{
    lemma_run_holds(project, path, text, file_type, events);
    lemma_first_is_parsed(project, path, text, file_type, events);
    lemma_run_keeps_result(
        project,
        path,
        text,
        file_type,
        events[0]->Parsed_0,
        events,
    );
}

/// The first thing that a run waits for is the parser.
proof fn lemma_first_is_parsed(
    project: ProjectView,
    path: FileId,
    text: Seq<char>,
    file_type: FileType,
    events: Seq<RunEvent>,
)
    requires
        RunState::start(project, path, text, file_type).awaits_all(events),
        events.len() > 0,
    ensures
        events[0] is Parsed,
    decreases events.len(),
{
    if events.len() > 1 {
        lemma_first_is_parsed(project, path, text, file_type, events.drop_last());
    }
}

/// Whether a run holds on to what the parser said of the file that the run started with:
/// while the inclusions of the file are followed, in the lowest frame, and in the project
/// afterwards. Nothing of an earlier analysis is left there.
pub open spec fn keeps_result(
    path: FileId,
    result: Result<(DtsFile, Seq<DiagnosticView>), DiagnosticView>,
    state: RunState,
) -> bool {
    let now = state.project.files[path];
    &&& state.stack.len() > 0 ==> {
        &&& result matches Ok((file, said))
        &&& state.stack[0].path == path
        &&& state.stack[0].file == file
        &&& said.is_prefix_of(state.stack[0].diagnostics)
    }
    &&& state.stack.len() == 0 ==> {
        &&& state.waiting is Done
        &&& match result {
            Ok((file, said)) => now.file == Some(file) && said.is_prefix_of(
                now.parser_diagnostics,
            ),
            Err(err) => now.file is None && now.parser_diagnostics == seq![err],
        }
        &&& now.analysis_diagnostics == Seq::<DiagnosticView>::empty()
        &&& now.status is NotAnalyzed
    }
}

/// To go on keeps what the parser said.
proof fn lemma_resumed_result(
    path: FileId,
    result: Result<(DtsFile, Seq<DiagnosticView>), DiagnosticView>,
    state: RunState,
)
    requires
        keeps_result(path, result, going_on(state)),
    ensures
        keeps_result(path, result, state.resumed()),
    decreases state.stack.len(),
{
    if state.stack.len() > 0 {
        let top = state.stack.last();
        if next_inclusion(top.file.elements@, top.next) is None {
            lemma_resumed_result(path, result, without_top(state));
        }
    }
}

/// Each event but the first keeps what the parser said.
proof fn lemma_after_result(
    path: FileId,
    result: Result<(DtsFile, Seq<DiagnosticView>), DiagnosticView>,
    state: RunState,
    event: RunEvent,
)
    requires
        keeps_result(path, result, state),
        state.awaits(event),
    ensures
        keeps_result(path, result, state.after(event)),
{
    let top = state.stack.last();
    match event {
        RunEvent::Parsed(parsed) => {
            if let WaitingView::Parse { path: next, text, file_type, parent } = state.waiting {
                match parsed {
                    Ok((file, diagnostics)) => {
                        let frame = FrameView {
                            path: next,
                            parent: state.parent_of(next, parent),
                            text,
                            file_type,
                            file,
                            diagnostics,
                            includes: Seq::empty(),
                            next: 0,
                        };
                        lemma_resumed_result(
                            path,
                            result,
                            RunState {
                                stack: state.stack.push(frame),
                                ..state.with_file(next, sentinel_view())
                            },
                        );
                    },
                    Err(err) => {
                        lemma_resumed_result(
                            path,
                            result,
                            state.with_file(
                                next,
                                given_up_view(
                                    state.parent_of(next, parent),
                                    err,
                                    text,
                                    file_type,
                                ),
                            ),
                        );
                    },
                }
            }
        },
        RunEvent::Found(outcome) => {
            let included = match outcome {
                Ok(loaded) => match loaded.canonical {
                    Some(found) => FrameView { includes: top.includes.push(found), ..top },
                    None => top,
                },
                Err(_) => top,
            };
            lemma_resumed_result(
                path,
                result,
                state.with_top(FrameView { next: top.next + 1, ..included }),
            );
        },
        RunEvent::Read(read) => {
            if let Err(message) = read {
                let diagnostics = top.diagnostics.push(
                    io_error_view(
                        (top.inclusion()->0).spec_span(),
                        (top.inclusion()->0).spec_source(),
                        message,
                    ),
                );
                lemma_resumed_result(
                    path,
                    result,
                    state.with_top(FrameView { diagnostics, next: top.next + 1, ..top }),
                );
            }
        },
    }
}

/// Whatever the caller hands back after the parser came back with the file that the run
/// started with, the run holds on to what the parser said.
pub proof fn lemma_run_keeps_result(
    project: ProjectView,
    path: FileId,
    text: Seq<char>,
    file_type: FileType,
    result: Result<(DtsFile, Seq<DiagnosticView>), DiagnosticView>,
    events: Seq<RunEvent>,
)
    requires
        events.len() > 0,
        events[0] == RunEvent::Parsed(result),
        RunState::start(project, path, text, file_type).awaits_all(events),
    ensures
        keeps_result(
            path,
            result,
            RunState::start(project, path, text, file_type).after_all(events),
        ),
    decreases events.len(),
{
    let start = RunState::start(project, path, text, file_type);
    if events.len() == 1 {
        assert(start.after_all(events.drop_last()) == start);
        match result {
            Ok((file, diagnostics)) => {
                let frame = FrameView {
                    path,
                    parent: start.parent_of(path, None),
                    text,
                    file_type,
                    file,
                    diagnostics,
                    includes: Seq::empty(),
                    next: 0,
                };
                lemma_resumed_result(
                    path,
                    result,
                    RunState {
                        stack: start.stack.push(frame),
                        ..start.with_file(path, sentinel_view())
                    },
                );
            },
            Err(_) => {},
        }
    } else {
        lemma_run_keeps_result(project, path, text, file_type, result, events.drop_last());
        lemma_after_result(
            path,
            result,
            start.after_all(events.drop_last()),
            events.last(),
        );
    }
}

/// Whether a parser hands back the file that it was given.
pub open spec fn is_own_file(state: RunState, event: RunEvent) -> bool {
    match (state.waiting, event) {
        (WaitingView::Parse { path, .. }, RunEvent::Parsed(Ok((file, _)))) => file.source == path,
        _ => true,
    }
}

/// Whether a file is noted as including another, by the frame that follows it or, if
/// there is none, by the file of the project.
pub open spec fn notes_inclusion(
    now: Map<FileId, ProjectFileView>,
    stack: Seq<FrameView>,
    file: FileId,
    included: FileId,
) -> bool {
    ||| exists|i: int|
        0 <= i < stack.len() && (#[trigger] stack[i]).path == file && stack[i].includes.contains(
            included,
        )
    ||| !follows(stack, file) && now.contains_key(file) && now[file].includes.contains(included)
}

/// Whether a followed file is included by the one below it, which is its parent.
pub open spec fn is_link(stack: Seq<FrameView>, i: int) -> bool {
    stack[i].parent == Some(stack[i - 1].path) && stack[i - 1].includes.contains(stack[i].path)
}

/// Whether each followed file is included by the one below it, which is its parent.
pub open spec fn is_linked(stack: Seq<FrameView>) -> bool {
    &&& forall|i: int|
        0 <= i < stack.len() ==> (#[trigger] stack[i]).file.source == stack[i].path
    &&& forall|i: int| 0 < i < stack.len() ==> #[trigger] is_link(stack, i)
}

/// Whether each file that is new in the project is included by its parent.
pub open spec fn is_noted(
    files: Map<FileId, ProjectFileView>,
    path: FileId,
    now: Map<FileId, ProjectFileView>,
    stack: Seq<FrameView>,
) -> bool {
    forall|other: FileId| #[trigger]
        now.contains_key(other) && !files.contains_key(other) && other != path && !follows(
            stack,
            other,
        ) ==> now[other].parent is Some && notes_inclusion(
            now,
            stack,
            now[other].parent->0,
            other,
        )
}

/// The parent that a file had before a run.
pub open spec fn old_parent(files: Map<FileId, ProjectFileView>, path: FileId) -> Option<FileId> {
    if files.contains_key(path) {
        files[path].parent
    } else {
        None
    }
}

/// Whether what is to be done next is about a file that the topmost frame includes. At
/// the start of a run, the files of the project are the given ones.
pub open spec fn waits_for_included(
    files: Map<FileId, ProjectFileView>,
    now: Map<FileId, ProjectFileView>,
    stack: Seq<FrameView>,
    waiting: WaitingView,
) -> bool {
    match waiting {
        WaitingView::Parse { path: next, parent, .. } => if stack.len() == 0 {
            parent is None && now == files
        } else {
            parent == Some(stack.last().path) && stack.last().includes.contains(next)
        },
        WaitingView::Read(next) => stack.len() > 0 && stack.last().includes.contains(next),
        _ => true,
    }
}

/// What holds of the parents of files in a run that started with a file on a project with
/// the given files: each followed file is included by the one below it, each file that is
/// new in the project is included by its parent, and the file that the run started with
/// keeps its parent, whether or not it can be parsed.
pub open spec fn tree_holds(
    files: Map<FileId, ProjectFileView>,
    path: FileId,
    state: RunState,
) -> bool {
    let now = state.project.files;
    &&& is_linked(state.stack)
    &&& is_noted(files, path, now, state.stack)
    &&& waits_for_included(files, now, state.stack, state.waiting)
    &&& state.stack.len() > 0 ==> state.stack[0].parent == old_parent(files, path)
    &&& state.stack.len() == 0 && !state.at_start() ==> now[path].parent == old_parent(
        files,
        path,
    )
}

/// Whether a frame is for the same file as another and includes at least as much.
spec fn includes_more(frame: FrameView, than: FrameView) -> bool {
    &&& frame.path == than.path
    &&& frame.parent == than.parent
    &&& frame.file == than.file
    &&& forall|included: FileId| #[trigger]
        than.includes.contains(included) ==> frame.includes.contains(included)
}

/// Whether each frame of a stack is for the same file as that of another and includes at
/// least as much.
spec fn stack_includes_more(stack: Seq<FrameView>, than: Seq<FrameView>) -> bool {
    stack.len() == than.len() && forall|i: int|
        0 <= i < stack.len() ==> includes_more(#[trigger] stack[i], than[i])
}

proof fn lemma_follows_the_same(stack: Seq<FrameView>, than: Seq<FrameView>, file: FileId)
    requires
        stack_includes_more(stack, than),
    ensures
        follows(stack, file) == follows(than, file),
{
    if follows(than, file) {
        let i = choose|i: int| 0 <= i < than.len() && (#[trigger] than[i]).path == file;
        assert(includes_more(stack[i], than[i]));
    }
    if follows(stack, file) {
        let i = choose|i: int| 0 <= i < stack.len() && (#[trigger] stack[i]).path == file;
        assert(includes_more(stack[i], than[i]));
    }
}

proof fn lemma_linked_still(stack: Seq<FrameView>, than: Seq<FrameView>)
    requires
        stack_includes_more(stack, than),
        is_linked(than),
    ensures
        is_linked(stack),
{
    assert forall|i: int| 0 <= i < stack.len() implies (#[trigger] stack[i]).file.source
        == stack[i].path by {
        assert(includes_more(stack[i], than[i]));
    }
    assert forall|i: int| 0 < i < stack.len() implies #[trigger] is_link(stack, i) by {
        assert(is_link(than, i));
        assert(includes_more(stack[i], than[i]));
        assert(includes_more(stack[i - 1], than[i - 1]));
    }
}

proof fn lemma_noted_still(
    files: Map<FileId, ProjectFileView>,
    path: FileId,
    now: Map<FileId, ProjectFileView>,
    stack: Seq<FrameView>,
    than: Seq<FrameView>,
)
    requires
        stack_includes_more(stack, than),
        is_noted(files, path, now, than),
    ensures
        is_noted(files, path, now, stack),
{
    assert forall|other: FileId| #[trigger]
        now.contains_key(other) && !files.contains_key(other) && other != path && !follows(
            stack,
            other,
        ) implies now[other].parent is Some && notes_inclusion(
        now,
        stack,
        now[other].parent->0,
        other,
    ) by {
        lemma_follows_the_same(stack, than, other);
        let parent = now[other].parent->0;
        lemma_follows_the_same(stack, than, parent);
        assert(notes_inclusion(now, than, parent, other));
        if follows(than, parent) {
            let i = choose|i: int|
                0 <= i < than.len() && (#[trigger] than[i]).path == parent
                    && than[i].includes.contains(other);
            assert(includes_more(stack[i], than[i]));
        }
    }
}

/// Another topmost frame for the same file, which includes at least as much, keeps what
/// holds of the parents of files.
proof fn lemma_new_top_tree(
    files: Map<FileId, ProjectFileView>,
    path: FileId,
    state: RunState,
    frame: FrameView,
    waiting: WaitingView,
)
    requires
        tree_holds(files, path, state),
        state.stack.len() > 0,
        includes_more(frame, state.stack.last()),
        waits_for_included(
            files,
            state.project.files,
            state.with_top(frame).stack,
            waiting,
        ),
    ensures
        tree_holds(files, path, RunState { waiting, ..state.with_top(frame) }),
{
    let stack = state.with_top(frame).stack;
    assert(stack_includes_more(stack, state.stack));
    lemma_linked_still(stack, state.stack);
    lemma_noted_still(files, path, state.project.files, stack, state.stack);
    assert(includes_more(stack[0], state.stack[0]));
}

/// Whether no file is followed twice.
spec fn follows_each_once(stack: Seq<FrameView>) -> bool {
    forall|i: int, j: int|
        0 <= i < j < stack.len() ==> (#[trigger] stack[i]).path != (#[trigger] stack[j]).path
}

/// What is noted stays so when the topmost frame becomes a file of the project.
proof fn lemma_note_stays(
    now: Map<FileId, ProjectFileView>,
    stack: Seq<FrameView>,
    file: FileId,
    included: FileId,
)
    requires
        stack.len() > 0,
        follows_each_once(stack),
        notes_inclusion(now, stack, file, included),
    ensures
        notes_inclusion(
            now.insert(stack.last().path, stack.last().finished()),
            stack.drop_last(),
            file,
            included,
        ),
{
    let fewer = stack.drop_last();
    if follows(stack, file) {
        let i = choose|i: int|
            0 <= i < stack.len() && (#[trigger] stack[i]).path == file
                && stack[i].includes.contains(included);
        if i < fewer.len() {
            assert(fewer[i].path == file && fewer[i].includes.contains(included));
        } else {
            lemma_top_only_once(stack);
        }
    } else {
        assert(stack[stack.len() - 1].path != file);
        if follows(fewer, file) {
            let i = choose|i: int| 0 <= i < fewer.len() && (#[trigger] fewer[i]).path == file;
            assert(stack[i].path == file);
        }
    }
}

proof fn lemma_top_only_once(stack: Seq<FrameView>)
    requires
        stack.len() > 0,
        follows_each_once(stack),
    ensures
        !follows(stack.drop_last(), stack.last().path),
{
    let fewer = stack.drop_last();
    if follows(fewer, stack.last().path) {
        let i = choose|i: int|
            0 <= i < fewer.len() && (#[trigger] fewer[i]).path == stack.last().path;
        assert(stack[i].path != stack[stack.len() - 1].path);
    }
}

proof fn lemma_noted_without_top(
    files: Map<FileId, ProjectFileView>,
    path: FileId,
    now: Map<FileId, ProjectFileView>,
    stack: Seq<FrameView>,
)
    requires
        stack.len() > 0,
        stack[0].path == path,
        follows_each_once(stack),
        is_linked(stack),
        is_noted(files, path, now, stack),
    ensures
        is_noted(
            files,
            path,
            now.insert(stack.last().path, stack.last().finished()),
            stack.drop_last(),
        ),
{
    let top = stack.last();
    let fewer = stack.drop_last();
    let later = now.insert(top.path, top.finished());
    assert forall|other: FileId| #[trigger]
        later.contains_key(other) && !files.contains_key(other) && other != path && !follows(
            fewer,
            other,
        ) implies later[other].parent is Some && notes_inclusion(
        later,
        fewer,
        later[other].parent->0,
        other,
    ) by {
        if other == top.path {
            let at = stack.len() - 1;
            assert(is_link(stack, at));
            assert(fewer[at - 1] == stack[at - 1]);
        } else {
            if follows(stack, other) {
                let i = choose|i: int|
                    0 <= i < stack.len() && (#[trigger] stack[i]).path == other;
                assert(fewer[i].path == other);
            }
            assert(now.contains_key(other));
            lemma_note_stays(now, stack, now[other].parent->0, other);
        }
    }
}

/// A topmost frame that becomes a file of the project keeps what holds of the parents of
/// files.
proof fn lemma_without_top_tree(
    files: Map<FileId, ProjectFileView>,
    path: FileId,
    state: RunState,
)
    requires
        tree_holds(files, path, going_on(state)),
        state.stack.len() > 0,
        state.stack[0].path == path,
        follows_each_once(state.stack),
    ensures
        tree_holds(files, path, going_on(without_top(state))),
{
    let stack = state.stack;
    let fewer = stack.drop_last();
    lemma_noted_without_top(files, path, state.project.files, stack);
    assert forall|i: int| 0 < i < fewer.len() implies #[trigger] is_link(fewer, i) by {
        assert(is_link(stack, i));
        assert(fewer[i - 1] == stack[i - 1]);
    }
    assert(is_linked(fewer));
}

/// To go on keeps what holds of the parents of files.
proof fn lemma_resumed_tree(files: Map<FileId, ProjectFileView>, path: FileId, state: RunState)
    requires
        tree_holds(files, path, going_on(state)),
        state.stack.len() > 0 ==> state.stack[0].path == path,
        follows_each_once(state.stack),
    ensures
        tree_holds(files, path, state.resumed()),
    decreases state.stack.len(),
{
    if state.stack.len() > 0 {
        let top = state.stack.last();
        match next_inclusion(top.file.elements@, top.next) {
            Some(next) => {
                lemma_new_top_tree(
                    files,
                    path,
                    going_on(state),
                    FrameView { next, ..top },
                    WaitingView::Find,
                );
            },
            None => {
                let then = without_top(state);
                lemma_without_top_tree(files, path, state);
                assert(follows_each_once(then.stack)) by {
                    assert forall|i: int, j: int| 0 <= i < j < then.stack.len() implies (
                    #[trigger] then.stack[i]).path != (#[trigger] then.stack[j]).path by {
                        assert(state.stack[i].path != state.stack[j].path);
                    }
                }
                lemma_resumed_tree(files, path, then);
            },
        }
    }
}

/// A place-holder for a file that was not in the project, or was there at the start, keeps
/// what is noted; and so does a file that the topmost frame includes and is the parent of.
proof fn lemma_noted_with_frame(
    files: Map<FileId, ProjectFileView>,
    path: FileId,
    now: Map<FileId, ProjectFileView>,
    stack: Seq<FrameView>,
    frame: FrameView,
    file: ProjectFileView,
)
    requires
        is_noted(files, path, now, stack),
        stack.len() == 0 ==> now == files && frame.path == path,
        stack.len() > 0 ==> !now.contains_key(frame.path),
    ensures
        is_noted(files, path, now.insert(frame.path, file), stack.push(frame)),
        (stack.len() > 0 ==> file.parent == Some(stack.last().path)
            && stack.last().includes.contains(frame.path)) ==> is_noted(
            files,
            path,
            now.insert(frame.path, file),
            stack,
        ),
{
    let more = stack.push(frame);
    let later = now.insert(frame.path, file);
    assert(more[more.len() - 1].path == frame.path);
    assert forall|other: FileId| #[trigger]
        later.contains_key(other) && !files.contains_key(other) && other != path && other
            != frame.path && !follows(stack, other) implies {
        &&& later[other].parent is Some
        &&& notes_inclusion(later, stack, later[other].parent->0, other)
        &&& notes_inclusion(later, more, later[other].parent->0, other)
    } by {
        assert(now.contains_key(other));
        let parent = now[other].parent->0;
        assert(notes_inclusion(now, stack, parent, other));
        if follows(stack, parent) {
            let i = choose|i: int|
                0 <= i < stack.len() && (#[trigger] stack[i]).path == parent
                    && stack[i].includes.contains(other);
            assert(more[i].path == parent && more[i].includes.contains(other));
        } else {
            if follows(more, parent) {
                let i = choose|i: int|
                    0 <= i < more.len() && (#[trigger] more[i]).path == parent;
                if i < stack.len() {
                    assert(stack[i].path == parent);
                }
            }
        }
    }
    assert forall|other: FileId| follows(stack, other) implies follows(more, other) by {
        let i = choose|i: int| 0 <= i < stack.len() && (#[trigger] stack[i]).path == other;
        assert(more[i].path == other);
    }
}

/// A parser that comes back keeps what holds of the parents of files.
proof fn lemma_parsed_tree(
    files: Map<FileId, ProjectFileView>,
    path: FileId,
    text: Seq<char>,
    file_type: FileType,
    state: RunState,
    result: Result<(DtsFile, Seq<DiagnosticView>), DiagnosticView>,
)
    requires
        run_holds(files, path, text, file_type, state),
        tree_holds(files, path, state),
        state.waiting is Parse,
        is_own_file(state, RunEvent::Parsed(result)),
    ensures
        tree_holds(files, path, state.after_parsed(result)),
{
    if let WaitingView::Parse { path: next, text: t, file_type: k, parent } = state.waiting {
        let now = state.project.files;
        let stack = state.stack;
        assert(follows_each_once(stack));
        match result {
            Ok((file, diagnostics)) => {
                let frame = FrameView {
                    path: next,
                    parent: state.parent_of(next, parent),
                    text: t,
                    file_type: k,
                    file,
                    diagnostics,
                    includes: Seq::empty(),
                    next: 0,
                };
                let more = stack.push(frame);
                let then = RunState { stack: more, ..state.with_file(next, sentinel_view()) };
                lemma_noted_with_frame(files, path, now, stack, frame, sentinel_view());
                assert forall|i: int| 0 < i < more.len() implies #[trigger] is_link(more, i) by {
                    if i < stack.len() {
                        assert(is_link(stack, i));
                    }
                }
                assert(is_linked(more));
                assert forall|i: int, j: int| 0 <= i < j < more.len() implies (
                #[trigger] more[i]).path != (#[trigger] more[j]).path by {
                    if j == stack.len() {
                        assert(now.contains_key(stack[i].path));
                    }
                }
                lemma_resumed_tree(files, path, then);
            },
            Err(err) => {
                let file = given_up_view(state.parent_of(next, parent), err, t, k);
                let frame = FrameView {
                    path: next,
                    parent,
                    text: t,
                    file_type: k,
                    file: arbitrary(),
                    diagnostics: Seq::empty(),
                    includes: Seq::empty(),
                    next: 0,
                };
                lemma_noted_with_frame(files, path, now, stack, frame, file);
                lemma_resumed_tree(files, path, state.with_file(next, file));
            },
        }
    }
}

/// Each event keeps what holds of the parents of files.
proof fn lemma_after_tree(
    files: Map<FileId, ProjectFileView>,
    path: FileId,
    text: Seq<char>,
    file_type: FileType,
    state: RunState,
    event: RunEvent,
)
    requires
        run_holds(files, path, text, file_type, state),
        tree_holds(files, path, state),
        state.awaits(event),
        is_own_file(state, event),
    ensures
        tree_holds(files, path, state.after(event)),
{
    let top = state.stack.last();
    match event {
        RunEvent::Parsed(result) => {
            lemma_parsed_tree(files, path, text, file_type, state, result);
        },
        RunEvent::Found(outcome) => {
            let found = match outcome {
                Ok(loaded) => loaded.canonical,
                Err(_) => None,
            };
            let included = match found {
                Some(found) => FrameView { includes: top.includes.push(found), ..top },
                None => top,
            };
            if let Some(file) = found {
                assert forall|f: FileId| #[trigger]
                    top.includes.contains(f) implies included.includes.contains(f) by {
                    vstd::seq_lib::lemma_seq_contains_after_push(top.includes, file, f);
                }
                vstd::seq_lib::lemma_seq_contains_after_push(top.includes, file, file);
            }
            if found is Some && !state.project.files.contains_key(found->0) {
                lemma_new_top_tree(
                    files,
                    path,
                    state,
                    included,
                    WaitingView::Read(found->0),
                );
            } else {
                let frame = FrameView { next: top.next + 1, ..included };
                lemma_new_top_tree(files, path, state, frame, WaitingView::Find);
                lemma_resumed_with_top_tree(files, path, text, file_type, state, frame);
            }
        },
        RunEvent::Read(result) => {
            let frame = match result {
                Ok(_) => FrameView { next: top.next + 1, ..top },
                Err(message) => FrameView {
                    diagnostics: top.diagnostics.push(
                        io_error_view(
                            (top.inclusion()->0).spec_span(),
                            (top.inclusion()->0).spec_source(),
                            message,
                        ),
                    ),
                    next: top.next + 1,
                    ..top
                },
            };
            if result is Err {
                lemma_new_top_tree(files, path, state, frame, WaitingView::Find);
                lemma_resumed_with_top_tree(files, path, text, file_type, state, frame);
            } else {
                assert(state.stack[state.stack.len() - 1].file.source == top.path);
                lemma_new_top_tree(files, path, state, frame, state.after(event).waiting);
            }
        },
    }
}

/// To go on with another topmost frame for the same file keeps what holds of the parents
/// of files.
proof fn lemma_resumed_with_top_tree(
    files: Map<FileId, ProjectFileView>,
    path: FileId,
    text: Seq<char>,
    file_type: FileType,
    state: RunState,
    frame: FrameView,
)
    requires
        run_holds(files, path, text, file_type, state),
        state.stack.len() > 0,
        frame.path == state.stack.last().path,
        tree_holds(
            files,
            path,
            RunState { waiting: WaitingView::Find, ..state.with_top(frame) },
        ),
    ensures
        tree_holds(files, path, state.with_top(frame).resumed()),
{
    let then = state.with_top(frame);
    assert forall|i: int| 0 <= i < then.stack.len() implies (#[trigger] then.stack[i]).path
        == state.stack[i].path by {}
    assert(follows_each_once(then.stack)) by {
        assert forall|i: int, j: int| 0 <= i < j < then.stack.len() implies (
        #[trigger] then.stack[i]).path != (#[trigger] then.stack[j]).path by {
            assert(state.stack[i].path != state.stack[j].path);
        }
    }
    assert(then.stack[0].path == state.stack[0].path);
    lemma_resumed_tree(files, path, then);
}

/// Whether the parser always hands back the file that it was given.
pub open spec fn all_own_files(start: RunState, events: Seq<RunEvent>) -> bool
    decreases events.len(),
{
    events.len() == 0 || (all_own_files(start, events.drop_last()) && is_own_file(
        start.after_all(events.drop_last()),
        events.last(),
    ))
}

/// Whatever else the caller hands back, parents and inclusions form a tree: each file that
/// is new in the project is included by its parent, and the file that the run started with
/// keeps its parent, whether or not it can be parsed.
pub proof fn lemma_run_builds_tree(
    project: ProjectView,
    path: FileId,
    text: Seq<char>,
    file_type: FileType,
    events: Seq<RunEvent>,
)
    requires
        RunState::start(project, path, text, file_type).awaits_all(events),
        all_own_files(RunState::start(project, path, text, file_type), events),
    ensures
        tree_holds(
            project.files,
            path,
            RunState::start(project, path, text, file_type).after_all(events),
        ),
    decreases events.len(),
{
    let start = RunState::start(project, path, text, file_type);
    if events.len() > 0 {
        lemma_run_builds_tree(project, path, text, file_type, events.drop_last());
        lemma_run_holds(project, path, text, file_type, events.drop_last());
        lemma_after_tree(
            project.files,
            path,
            text,
            file_type,
            start.after_all(events.drop_last()),
            events.last(),
        );
    }
}

/// Once nothing is left to do: each file that is new in the project has a parent there
/// that includes it, and the file that the run started with has the parent that it had.
pub proof fn lemma_finished_tree(
    project: ProjectView,
    path: FileId,
    text: Seq<char>,
    file_type: FileType,
    events: Seq<RunEvent>,
)
    requires
        RunState::start(project, path, text, file_type).awaits_all(events),
        all_own_files(RunState::start(project, path, text, file_type), events),
        RunState::start(project, path, text, file_type).after_all(events).waiting is Done,
    ensures
        ({
            let now = RunState::start(project, path, text, file_type).after_all(
                events,
            ).project.files;
            &&& now[path].parent == old_parent(project.files, path)
            &&& forall|other: FileId| #[trigger]
                now.contains_key(other) && !project.files.contains_key(other) && other
                    != path ==> {
                    &&& now[other].parent matches Some(parent)
                    &&& now.contains_key(parent)
                    &&& now[parent].includes.contains(other)
                }
        }),
{
    let end = RunState::start(project, path, text, file_type).after_all(events);
    let now = end.project.files;
    lemma_run_holds(project, path, text, file_type, events);
    lemma_run_builds_tree(project, path, text, file_type, events);
    assert forall|other: FileId| #[trigger]
        now.contains_key(other) && !project.files.contains_key(other) && other
            != path implies {
        &&& now[other].parent matches Some(parent)
        &&& now.contains_key(parent)
        &&& now[parent].includes.contains(other)
    } by {
        assert(!follows(end.stack, other));
        assert(notes_inclusion(now, end.stack, now[other].parent->0, other));
    }
}

} // verus!
