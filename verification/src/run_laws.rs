//! What each step of a run does that parses a file together with all that it includes.
use crate::ast::{AnyDirective, DtsFile, Include, Primary};
use crate::data::{FileId, FileType, IoError};
use crate::diagnostics::{diagnostics_view, Diagnostic, DiagnosticView};
use crate::error_codes::ErrorCode;
use crate::finding_laws::about_inclusion;
use crate::loader::LoadOutcome;
use crate::parse::{
    frames_view, next_inclusion, FrameView, ParseAction, ParseRun, ParsedFile, RunState, Waiting,
    WaitingView,
};
use crate::project::{Project, ProjectFileView, ProjectView, StatusView};
use vstd::prelude::*;

verus! {

/// The inclusion that an element of a file is.
pub open spec fn inclusion_of(primary: Primary) -> Option<Include> {
    match primary {
        Primary::Directive(AnyDirective::Include(inclusion)) => Some(inclusion),
        _ => None,
    }
}

/// Whether the first inclusion of a file from a place on is at another.
pub open spec fn comes_next(primaries: Seq<Primary>, from: int, at: int) -> bool {
    &&& from <= at < primaries.len()
    &&& inclusion_of(primaries[at]) is Some
    &&& forall|i: int| from <= i < at ==> inclusion_of(#[trigger] primaries[i]) is None
}

/// Whether a file has no inclusion from a place on.
pub open spec fn none_follows(primaries: Seq<Primary>, from: int) -> bool {
    forall|i: int| from <= i < primaries.len() ==> inclusion_of(#[trigger] primaries[i]) is None
}

proof fn lemma_next(primaries: Seq<Primary>, from: int)
    requires
        0 <= from,
    ensures
        match next_inclusion(primaries, from) {
            Some(at) => comes_next(primaries, from, at),
            None => none_follows(primaries, from),
        },
    decreases primaries.len() - from,
{
    if from < primaries.len() && inclusion_of(primaries[from]) is None {
        lemma_next(primaries, from + 1);
        match next_inclusion(primaries, from) {
            Some(at) => {
                assert forall|i: int| from <= i < at implies inclusion_of(
                    #[trigger] primaries[i],
                ) is None by {}
            },
            None => {
                assert forall|i: int| from <= i < primaries.len() implies inclusion_of(
                    #[trigger] primaries[i],
                ) is None by {}
            },
        }
    }
}

/// A file that was parsed and is not analyzed yet, with what its frame holds.
pub open spec fn file_of_frame(frame: FrameView) -> ProjectFileView {
    ProjectFileView {
        parent: frame.parent,
        includes: frame.includes,
        parser_diagnostics: frame.diagnostics,
        analysis_diagnostics: Seq::empty(),
        file: Some(frame.file),
        file_type: frame.file_type,
        source: frame.text,
        status: StatusView::NotAnalyzed,
    }
}

/// A file of which nothing is known but a parent, a text, a kind and findings of the parser.
pub open spec fn unread_file(
    parent: Option<FileId>,
    findings: Seq<DiagnosticView>,
    file_type: FileType,
    text: Seq<char>,
) -> ProjectFileView {
    ProjectFileView {
        parent,
        includes: Seq::empty(),
        parser_diagnostics: findings,
        analysis_diagnostics: Seq::empty(),
        file: None,
        file_type,
        source: text,
        status: StatusView::NotAnalyzed,
    }
}

/// A run with another file in its project.
pub open spec fn with_project_file(
    state: RunState,
    path: FileId,
    file: ProjectFileView,
) -> RunState {
    RunState {
        project: ProjectView { files: state.project.files.insert(path, file), ..state.project },
        ..state
    }
}

/// A run that goes on searches for what the next inclusion of its topmost frame names. A
/// frame without a further inclusion becomes a file of the project, which is parsed and not
/// analyzed, and the run goes on with the frame below; without a frame it is done.
pub proof fn lemma_run_goes_on(state: RunState)
    requires
        state.stack.len() > 0 ==> state.stack.last().next >= 0,
    ensures
        state.stack.len() == 0 ==> state.resumed() == (RunState {
            waiting: WaitingView::Done,
            ..state
        }),
        state.stack.len() > 0 ==> {
            let top = state.stack.last();
            let primaries = top.file.elements@;
            &&& forall|at: int| #[trigger]
                comes_next(primaries, top.next, at) ==> state.resumed() == (RunState {
                    project: state.project,
                    stack: state.stack.drop_last().push(FrameView { next: at, ..top }),
                    waiting: WaitingView::Find,
                })
            &&& none_follows(primaries, top.next) ==> state.resumed() == (RunState {
                stack: state.stack.drop_last(),
                ..with_project_file(state, top.path, file_of_frame(top))
            }).resumed()
        },
{
    if state.stack.len() > 0 {
        let top = state.stack.last();
        let primaries = top.file.elements@;
        lemma_next(primaries, top.next);
        assert forall|at: int| #[trigger] comes_next(primaries, top.next, at) implies
            next_inclusion(primaries, top.next) == Some(at) by {
            match next_inclusion(primaries, top.next) {
                Some(other) => {
                    if other < at {
                        assert(inclusion_of(primaries[other]) is None);
                    }
                    if at < other {
                        assert(inclusion_of(primaries[at]) is None);
                    }
                },
                None => {
                    assert(inclusion_of(primaries[at]) is None);
                },
            }
        }
        if none_follows(primaries, top.next) {
            if let Some(at) = next_inclusion(primaries, top.next) {
                assert(inclusion_of(primaries[at]) is None);
            }
        }
    }
}

/// A run starts with the file that it is to parse.
pub proof fn lemma_run_starts(
    path: FileId,
    text: String,
    file_type: FileType,
    r: ParseRun,
    action: ParseAction<'_>,
)
    requires
        call_ensures(ParseRun::start, (path, text, file_type), r),
        call_ensures(ParseRun::action, (&r,), action),
    ensures
        r.stack@.len() == 0,
        action matches ParseAction::Parse(file, content) && file == path && content@ == text@,
{
    let project: ProjectView = arbitrary();
    assert(r.state(project).stack.len() == 0);
    assert(r.state(project).waiting == r.waiting@);
}

/// A run asks for what it waits for: to search, in the place of the topmost file, for the
/// name that the inclusion it has come to names, to read the file that was found, or nothing.
pub proof fn lemma_run_asks(run: &ParseRun, action: ParseAction<'_>)
    requires
        call_ensures(ParseRun::action, (run,), action),
    ensures
        match run.waiting {
            Waiting::Parse(unparsed) => action matches ParseAction::Parse(file, content) && file
                == unparsed.path && content@ == unparsed.text@,
            Waiting::Find => action matches ParseAction::Find(source, name) && source
                == run.stack@.last().file.source && {
                let top = run.stack@.last();
                0 <= top.next < top.file.elements@.len() && inclusion_of(
                    top.file.elements@[top.next as int],
                ) is Some ==> name@ == (inclusion_of(
                    top.file.elements@[top.next as int],
                )->0).file_name.item@
            },
            Waiting::Read(path) => action == ParseAction::Read(path),
            Waiting::Done => action is Done,
        },
{
}

/// What a run does with a file that the parser came back with: a parsed file is followed, as
/// a child of the parent that it was read for or else of the one that it had, and a
/// place-holder stands for it; one that the parser gave up on is put into the project with
/// that parent and the finding alone, and the run goes on.
pub proof fn lemma_run_takes_parsed(
    run: &mut ParseRun,
    project: &mut Project,
    result: Result<ParsedFile, Diagnostic>,
    path: FileId,
    text: Seq<char>,
    file_type: FileType,
    read_for: Option<FileId>,
)
    requires
        call_ensures(ParseRun::parsed, (run, project, result), ()),
        old(run).waiting@ == (WaitingView::Parse { path, text, file_type, parent: read_for }),
    ensures
        ({
            let before = old(run).state(old(project)@);
            let after = final(run).state(final(project)@);
            let parent = if read_for is Some {
                read_for
            } else if old(project)@.files.contains_key(path) {
                old(project)@.files[path].parent
            } else {
                None
            };
            match result {
                Ok(parsed) => after == (RunState {
                    stack: before.stack.push(
                        FrameView {
                            path,
                            parent,
                            text,
                            file_type,
                            file: parsed.file,
                            diagnostics: diagnostics_view(parsed.diagnostics@),
                            includes: Seq::empty(),
                            next: 0,
                        },
                    ),
                    ..with_project_file(
                        before,
                        path,
                        unread_file(None, Seq::empty(), FileType::Unknown, Seq::empty()),
                    )
                }).resumed(),
                Err(err) => after == with_project_file(
                    before,
                    path,
                    unread_file(parent, seq![err@], file_type, text),
                ).resumed(),
            }
        }),
{
}

/// What a run does with a file that was searched for: one that was found and has a canonical
/// path counts as included and is read unless it is in the project; otherwise the run goes on
/// behind the inclusion.
pub proof fn lemma_run_takes_found(
    run: &mut ParseRun,
    project: &mut Project,
    outcome: LoadOutcome,
)
    requires
        call_ensures(ParseRun::found, (run, project, outcome), ()),
        old(run).stack@.len() > 0,
    ensures
        ({
            let before = old(run).state(old(project)@);
            let after = final(run).state(final(project)@);
            let top = before.stack.last();
            let below = before.stack.drop_last();
            let canonical = match outcome {
                Ok(loaded) => loaded.canonical,
                Err(_) => None,
            };
            match canonical {
                Some(path) => {
                    let included = FrameView { includes: top.includes.push(path), ..top };
                    if old(project)@.files.contains_key(path) {
                        after == (RunState {
                            stack: below.push(FrameView { next: top.next + 1, ..included }),
                            ..before
                        }).resumed()
                    } else {
                        after == RunState {
                            project: before.project,
                            stack: below.push(included),
                            waiting: WaitingView::Read(path),
                        }
                    }
                },
                None => after == (RunState {
                    stack: below.push(FrameView { next: top.next + 1, ..top }),
                    ..before
                }).resumed(),
            }
        }),
{
}

/// What a run does with the text of an included file: it is parsed as a child of the
/// including file. If it could not be read, that is reported where the inclusion stands, and
/// the run goes on behind it.
pub proof fn lemma_run_takes_read(
    run: &mut ParseRun,
    project: &mut Project,
    result: Result<(String, FileType), IoError>,
    path: FileId,
    inclusion: Include,
)
    requires
        call_ensures(ParseRun::read, (run, project, result), ()),
        old(run).stack@.len() > 0,
        old(run).waiting@ == WaitingView::Read(path),
        ({
            let top = old(run).stack@.last();
            0 <= top.next < top.file.elements@.len() && inclusion_of(
                top.file.elements@[top.next as int],
            ) == Some(inclusion)
        }),
    ensures
        ({
            let before = old(run).state(old(project)@);
            let after = final(run).state(final(project)@);
            let top = before.stack.last();
            let below = before.stack.drop_last();
            match result {
                Ok((text, file_type)) => after == RunState {
                    project: before.project,
                    stack: below.push(FrameView { next: top.next + 1, ..top }),
                    waiting: WaitingView::Parse {
                        path,
                        text: text@,
                        file_type,
                        parent: Some(top.file.source),
                    },
                },
                Err(err) => after == (RunState {
                    stack: below.push(
                        FrameView {
                            diagnostics: top.diagnostics.push(
                                about_inclusion(inclusion, ErrorCode::IOError, err.message@),
                            ),
                            next: top.next + 1,
                            ..top
                        },
                    ),
                    ..before
                }).resumed(),
            }
        }),
{
    let before = old(run).state(old(project)@);
    assert(before.stack.last() == old(run).stack@.last()@);
}

} // verus!
