//! Parsing a file together with all that it includes, step by step.
//!
//! A [`ParseRun`] decides what to do next; the caller parses, searches and reads
//! files, and hands back what came of it.
use crate::ast::{AnyDirective, DtsFile, Include, Primary};
use crate::data::{FileId, FileType, HasSource, HasSpan, IoError};
use crate::diagnostics::{diagnostics_view, io_error_view, Diagnostic, DiagnosticView};
use crate::loader::LoadOutcome;
use crate::project::{
    parsed_view, sentinel_view, unrecoverable_view, Project, ProjectFile, ProjectFileView,
    ProjectView,
};
use vstd::prelude::*;

verus! {

/// A file that was parsed, with what the parser found.
pub struct ParsedFile {
    pub file: DtsFile,
    pub diagnostics: Vec<Diagnostic>,
}

/// A file whose inclusions are being followed.
pub struct Frame {
    pub path: FileId,
    pub parent: Option<FileId>,
    pub text: String,
    pub file_type: FileType,
    pub file: DtsFile,
    pub diagnostics: Vec<Diagnostic>,
    /// The included files so far.
    pub includes: Vec<FileId>,
    /// The first element of the file that has not been met.
    pub next: usize,
}

/// A file whose inclusions are being followed, as a mathematical value.
pub struct FrameView {
    pub path: FileId,
    pub parent: Option<FileId>,
    pub text: Seq<char>,
    pub file_type: FileType,
    pub file: DtsFile,
    pub diagnostics: Seq<DiagnosticView>,
    pub includes: Seq<FileId>,
    pub next: int,
}

impl View for Frame {
    type V = FrameView;

    open spec fn view(&self) -> FrameView {
        FrameView {
            path: self.path,
            parent: self.parent,
            text: self.text@,
            file_type: self.file_type,
            file: self.file,
            diagnostics: diagnostics_view(self.diagnostics@),
            includes: self.includes@,
            next: self.next as int,
        }
    }
}

/// A file that is to be parsed next.
pub struct Unparsed {
    pub path: FileId,
    pub text: String,
    pub file_type: FileType,
    pub parent: Option<FileId>,
}

/// What is to be done next.
pub enum Waiting {
    /// The file is to be parsed.
    Parse(Unparsed),
    /// The file that the next inclusion of the topmost frame names is to be searched
    /// for.
    Find,
    /// The text of the file is to be read.
    Read(FileId),
    /// Nothing is left to do.
    Done,
}

/// What is to be done next, as a mathematical value.
pub enum WaitingView {
    Parse { path: FileId, text: Seq<char>, file_type: FileType, parent: Option<FileId> },
    Find,
    Read(FileId),
    Done,
}

impl View for Waiting {
    type V = WaitingView;

    open spec fn view(&self) -> WaitingView {
        match self {
            Waiting::Parse(unparsed) => WaitingView::Parse {
                path: unparsed.path,
                text: unparsed.text@,
                file_type: unparsed.file_type,
                parent: unparsed.parent,
            },
            Waiting::Find => WaitingView::Find,
            Waiting::Read(path) => WaitingView::Read(*path),
            Waiting::Done => WaitingView::Done,
        }
    }
}

/// The next step of a [`ParseRun`], for the caller to take.
pub enum ParseAction<'a> {
    /// Parse a text as the file at a path, and call [`ParseRun::parsed`].
    Parse(FileId, &'a str),
    /// Search for the file that is named in the file at a path, and call
    /// [`ParseRun::found`].
    Find(FileId, &'a str),
    /// Read the file at a path, and call [`ParseRun::read`].
    Read(FileId),
    /// Nothing is left to do.
    Done,
}

/// The files whose inclusions are being followed, each included by the one below
/// it, and what is to be done next.
pub struct ParseRun {
    pub stack: Vec<Frame>,
    pub waiting: Waiting,
}

/// Frames as mathematical values.
pub open spec fn frames_view(frames: Seq<Frame>) -> Seq<FrameView> {
    frames.map_values(|frame: Frame| frame@)
}

/// A project with a run that works on it.
pub struct RunState {
    pub project: ProjectView,
    pub stack: Seq<FrameView>,
    pub waiting: WaitingView,
}

/// The inclusion that an element of a file is.
pub open spec fn inclusion_in(primary: Primary) -> Option<Include> {
    match primary {
        Primary::Directive(AnyDirective::Include(inclusion)) => Some(inclusion),
        _ => None,
    }
}

/// Where the first inclusion stands among elements, from the element at `from` on.
pub open spec fn next_inclusion(primaries: Seq<Primary>, from: int) -> Option<int>
    decreases primaries.len() - from,
{
    if from < 0 || from >= primaries.len() {
        None
    } else if inclusion_in(primaries[from]) is Some {
        Some(from)
    } else {
        next_inclusion(primaries, from + 1)
    }
}

/// A file that the parser gave up on, with the parent that it is parsed for.
pub open spec fn given_up_view(
    parent: Option<FileId>,
    err: DiagnosticView,
    text: Seq<char>,
    file_type: FileType,
) -> ProjectFileView {
    ProjectFileView { parent, ..unrecoverable_view(err, text, file_type) }
}

impl FrameView {
    /// The file of the project that the frame becomes when all its inclusions have
    /// been followed.
    pub open spec fn finished(self) -> ProjectFileView {
        parsed_view(
            self.parent,
            self.includes,
            self.diagnostics,
            self.file_type,
            self.file,
            self.text,
        )
    }

    /// The inclusion that the frame has come to.
    pub open spec fn inclusion(self) -> Option<Include> {
        if 0 <= self.next < self.file.elements@.len() {
            inclusion_in(self.file.elements@[self.next])
        } else {
            None
        }
    }
}

impl RunState {
    /// With a file of the project.
    pub open spec fn with_file(self, path: FileId, file: ProjectFileView) -> RunState {
        RunState {
            project: ProjectView { files: self.project.files.insert(path, file), ..self.project },
            ..self
        }
    }

    /// With another topmost frame.
    pub open spec fn with_top(self, frame: FrameView) -> RunState {
        RunState { stack: self.stack.drop_last().push(frame), ..self }
    }

    /// Goes on with the next inclusion of the topmost frame. A frame without a further
    /// inclusion becomes a file of the project.
    pub open spec fn resumed(self) -> RunState
        decreases self.stack.len(),
    {
        if self.stack.len() == 0 {
            RunState { waiting: WaitingView::Done, ..self }
        } else {
            let top = self.stack.last();
            match next_inclusion(top.file.elements@, top.next) {
                Some(next) => RunState {
                    waiting: WaitingView::Find,
                    ..self.with_top(FrameView { next, ..top })
                },
                None => RunState {
                    stack: self.stack.drop_last(),
                    ..self.with_file(top.path, top.finished())
                }.resumed(),
            }
        }
    }

    /// The parent of a file that is parsed: the given one, or the one that it had.
    pub open spec fn parent_of(self, path: FileId, parent: Option<FileId>) -> Option<FileId> {
        if parent is None && self.project.files.contains_key(path) {
            self.project.files[path].parent
        } else {
            parent
        }
    }

    /// After the parser came back. A place-holder for the file stands in the project
    /// while its inclusions are followed. A file that the parser gave up on has no
    /// inclusions, but keeps its place in the tree.
    pub open spec fn after_parsed(
        self,
        result: Result<(DtsFile, Seq<DiagnosticView>), DiagnosticView>,
    ) -> RunState {
        match self.waiting {
            WaitingView::Parse { path, text, file_type, parent } => match result {
                Ok((file, diagnostics)) => {
                    let frame = FrameView {
                        path,
                        parent: self.parent_of(path, parent),
                        text,
                        file_type,
                        file,
                        diagnostics,
                        includes: Seq::empty(),
                        next: 0,
                    };
                    RunState {
                        stack: self.stack.push(frame),
                        ..self.with_file(path, sentinel_view())
                    }.resumed()
                },
                Err(err) => self.with_file(
                    path,
                    given_up_view(self.parent_of(path, parent), err, text, file_type),
                ).resumed(),
            },
            _ => self,
        }
    }

    /// After the search for the file that the topmost frame includes. It counts as
    /// included if it was found and has a canonical path; it is read if it is not in
    /// the project.
    pub open spec fn after_found(self, outcome: LoadOutcome) -> RunState {
        let top = self.stack.last();
        match outcome {
            Ok(loaded) => match loaded.canonical {
                Some(path) => {
                    let included = FrameView { includes: top.includes.push(path), ..top };
                    if self.project.files.contains_key(path) {
                        self.with_top(FrameView { next: top.next + 1, ..included }).resumed()
                    } else {
                        RunState {
                            waiting: WaitingView::Read(path),
                            ..self.with_top(included)
                        }
                    }
                },
                None => self.with_top(FrameView { next: top.next + 1, ..top }).resumed(),
            },
            Err(_) => self.with_top(FrameView { next: top.next + 1, ..top }).resumed(),
        }
    }

    /// After the text of an included file was read. The inclusion is reported if it
    /// could not be read.
    pub open spec fn after_read(
        self,
        result: Result<(Seq<char>, FileType), Seq<char>>,
    ) -> RunState {
        let top = self.stack.last();
        match self.waiting {
            WaitingView::Read(path) => match result {
                Ok((text, file_type)) => RunState {
                    waiting: WaitingView::Parse {
                        path,
                        text,
                        file_type,
                        parent: Some(top.file.source),
                    },
                    ..self.with_top(FrameView { next: top.next + 1, ..top })
                },
                Err(message) => {
                    let inclusion = top.inclusion()->0;
                    self.with_top(
                        FrameView {
                            diagnostics: top.diagnostics.push(
                                io_error_view(
                                    inclusion.spec_span(),
                                    inclusion.spec_source(),
                                    message,
                                ),
                            ),
                            next: top.next + 1,
                            ..top
                        },
                    ).resumed()
                },
            },
            _ => self,
        }
    }
}

impl ParseRun {
    /// The run together with the project that it works on.
    pub open spec fn state(self, project: ProjectView) -> RunState {
        RunState { project, stack: frames_view(self.stack@), waiting: self.waiting@ }
    }

    /// Whether the run has come to an inclusion wherever one is followed.
    pub open spec fn valid(self) -> bool {
        self.waiting is Find || self.waiting is Read ==> self.stack@.len() > 0
            && self.stack@.last()@.inclusion() is Some
    }

    /// A run that parses a file, given its canonical path and its text.
    pub fn start(path: FileId, text: String, file_type: FileType) -> (r: ParseRun)
        ensures
            forall|project: ProjectView| #[trigger]
                r.state(project) == (RunState {
                    project,
                    stack: Seq::empty(),
                    waiting: WaitingView::Parse { path, text: text@, file_type, parent: None },
                }),
            r.valid(),
    {
        let r = ParseRun {
            stack: Vec::new(),
            waiting: Waiting::Parse(Unparsed { path, text, file_type, parent: None }),
        };
        assert(frames_view(r.stack@) =~= Seq::empty());
        r
    }
}

/// Finds the first inclusion among elements, from the element at `from` on.
fn find_inclusion(primaries: &Vec<Primary>, from: usize) -> (r: Option<usize>)
    ensures
        match r {
            Some(i) => next_inclusion(primaries@, from as int) == Some(i as int),
            None => next_inclusion(primaries@, from as int) is None,
        },
{
    let mut i: usize = from;
    while i < primaries.len()
        invariant
            from <= i,
            next_inclusion(primaries@, i as int) == next_inclusion(primaries@, from as int),
        decreases primaries@.len() - i,
    {
        if primaries[i].as_include().is_some() {
            return Some(i);
        }
        i += 1;
    }
    None
}

/// The next inclusion is one.
proof fn lemma_next_inclusion(primaries: Seq<Primary>, from: int)
    ensures
        next_inclusion(primaries, from) matches Some(i) ==> from <= i < primaries.len()
            && inclusion_in(primaries[i]) is Some,
    decreases primaries.len() - from,
{
    if 0 <= from < primaries.len() && inclusion_in(primaries[from]) is None {
        lemma_next_inclusion(primaries, from + 1);
    }
}

impl ParseRun {
    /// What is to be done next.
    pub fn action(&self) -> (r: ParseAction<'_>)
        requires
            self.valid(),
        ensures
            match self.waiting@ {
                WaitingView::Parse { path, text, .. } => r matches ParseAction::Parse(p, t) && p
                    == path && t@ == text,
                WaitingView::Find => r matches ParseAction::Find(source, name) && source
                    == self.stack@.last().file.source && name@
                    == (self.stack@.last()@.inclusion()->0).file_name.item@,
                WaitingView::Read(path) => r == ParseAction::Read(path),
                WaitingView::Done => r == ParseAction::Done,
            },
    {
        match &self.waiting {
            Waiting::Parse(unparsed) => ParseAction::Parse(
                unparsed.path,
                unparsed.text.as_str(),
            ),
            Waiting::Find => {
                let top = &self.stack[self.stack.len() - 1];
                match top.file.elements[top.next].as_include() {
                    Some(inclusion) => ParseAction::Find(
                        top.file.source,
                        inclusion.file_name.item.as_str(),
                    ),
                    None => ParseAction::Done,
                }
            },
            Waiting::Read(path) => ParseAction::Read(*path),
            Waiting::Done => ParseAction::Done,
        }
    }

    /// Goes on with the next inclusion.
    fn resume(&mut self, project: &mut Project)
        ensures
            final(self).state(final(project)@) == old(self).state(old(project)@).resumed(),
            final(self).valid(),
    {
        loop
            invariant
                self.state(project@).resumed() == old(self).state(old(project)@).resumed(),
            decreases self.stack@.len(),
        {
            let ghost before = self.state(project@);
            match self.stack.pop() {
                None => {
                    self.waiting = Waiting::Done;
                    assert(self.state(project@).stack =~= before.stack);
                    return;
                },
                Some(frame) => {
                    let mut frame = frame;
                    proof {
                        assert(before.stack.drop_last() =~= frames_view(self.stack@));
                        assert(before.stack.last() == frame@);
                        lemma_next_inclusion(frame.file.elements@, frame.next as int);
                    }
                    match find_inclusion(&frame.file.elements, frame.next) {
                        Some(next) => {
                            frame.next = next;
                            self.stack.push(frame);
                            self.waiting = Waiting::Find;
                            assert(self.state(project@).stack =~= before.stack.drop_last().push(
                                frame@,
                            ));
                            return;
                        },
                        None => {
                            let path = frame.path;
                            let file = ProjectFile::parsed(
                                frame.parent,
                                frame.includes,
                                frame.diagnostics,
                                frame.file_type,
                                frame.file,
                                frame.text,
                            );
                            project.insert_file(path, file);
                        },
                    }
                },
            }
        }
    }

    /// Goes on after the parser came back.
    pub fn parsed(&mut self, project: &mut Project, result: Result<ParsedFile, Diagnostic>)
        requires
            old(self).waiting is Parse,
        ensures
            final(self).state(final(project)@) == old(self).state(old(project)@).after_parsed(
                match result {
                    Ok(parsed) => Ok((parsed.file, diagnostics_view(parsed.diagnostics@))),
                    Err(err) => Err(err@),
                },
            ),
            final(self).valid(),
    {
        let ghost before = self.state(project@);
        let mut waiting = Waiting::Done;
        std::mem::swap(&mut waiting, &mut self.waiting);
        let unparsed = match waiting {
            Waiting::Parse(unparsed) => unparsed,
            _ => {
                assert(false);
                return;
            },
        };
        let parent = match unparsed.parent {
            Some(parent) => Some(parent),
            None => match project.get_file(Some(unparsed.path)) {
                Some(old_file) => old_file.parent,
                None => None,
            },
        };
        match result {
            Ok(parsed) => {
                project.insert_file(unparsed.path, ProjectFile::sentinel());
                let frame = Frame {
                    path: unparsed.path,
                    parent,
                    text: unparsed.text,
                    file_type: unparsed.file_type,
                    file: parsed.file,
                    diagnostics: parsed.diagnostics,
                    includes: Vec::new(),
                    next: 0,
                };
                self.stack.push(frame);
                proof {
                    assert(frames_view(self.stack@) =~= before.stack.push(frame@));
                }
            },
            Err(err) => {
                let mut file = ProjectFile::unrecoverable(
                    err,
                    unparsed.text,
                    unparsed.file_type,
                );
                file.parent = parent;
                project.insert_file(unparsed.path, file);
            },
        }
        let ghost between = self.state(project@);
        self.resume(project);
        proof {
            lemma_resumed_whatever_waited(between, before.waiting);
        }
    }

    /// Goes on after the search for an included file.
    pub fn found(&mut self, project: &mut Project, outcome: LoadOutcome)
        requires
            old(self).waiting is Find,
            old(self).valid(),
        ensures
            final(self).state(final(project)@) == old(self).state(old(project)@).after_found(
                outcome,
            ),
            final(self).valid(),
    {
        let ghost before = self.state(project@);
        let mut frame = match self.stack.pop() {
            Some(frame) => frame,
            None => {
                assert(false);
                return;
            },
        };
        let end = frame.file.elements.len();
        proof {
            assert(frames_view(self.stack@) =~= before.stack.drop_last());
            assert(before.stack.last() == frame@);
            assert(frame.next < end);
        }
        if let Ok(loaded) = outcome {
            if let Some(path) = loaded.canonical {
                frame.includes.push(path);
                if !project.contains_file(path) {
                    self.stack.push(frame);
                    self.waiting = Waiting::Read(path);
                    assert(frames_view(self.stack@) =~= before.stack.drop_last().push(frame@));
                    return;
                }
            }
        }
        frame.next += 1;
        self.stack.push(frame);
        assert(frames_view(self.stack@) =~= before.stack.drop_last().push(frame@));
        self.resume(project);
    }

    /// Goes on after the text of an included file was read.
    pub fn read(&mut self, project: &mut Project, result: Result<(String, FileType), IoError>)
        requires
            old(self).waiting is Read,
            old(self).valid(),
        ensures
            final(self).state(final(project)@) == old(self).state(old(project)@).after_read(
                match result {
                    Ok((text, file_type)) => Ok((text@, file_type)),
                    Err(err) => Err(err.message@),
                },
            ),
            final(self).valid(),
    {
        let ghost before = self.state(project@);
        let mut waiting = Waiting::Done;
        std::mem::swap(&mut waiting, &mut self.waiting);
        let path = match waiting {
            Waiting::Read(path) => path,
            _ => {
                assert(false);
                return;
            },
        };
        let mut frame = match self.stack.pop() {
            Some(frame) => frame,
            None => {
                assert(false);
                return;
            },
        };
        let end = frame.file.elements.len();
        proof {
            assert(frames_view(self.stack@) =~= before.stack.drop_last());
            assert(before.stack.last() == frame@);
            assert(frame.next < end);
        }
        match result {
            Ok((text, file_type)) => {
                let parent = Some(frame.file.source);
                frame.next += 1;
                self.stack.push(frame);
                self.waiting = Waiting::Parse(Unparsed { path, text, file_type, parent });
                assert(frames_view(self.stack@) =~= before.stack.drop_last().push(frame@));
            },
            Err(err) => {
                let ghost diagnostics = frame@.diagnostics;
                if let Some(inclusion) = frame.file.elements[frame.next].as_include() {
                    let diagnostic = Diagnostic::io_error(
                        inclusion.span(),
                        inclusion.source(),
                        &err,
                    );
                    frame.diagnostics.push(diagnostic);
                    assert(frame@.diagnostics =~= diagnostics.push(diagnostic@));
                }
                frame.next += 1;
                self.stack.push(frame);
                assert(frames_view(self.stack@) =~= before.stack.drop_last().push(frame@));
                let ghost between = self.state(project@);
                self.resume(project);
                proof {
                    lemma_resumed_whatever_waited(between, before.waiting);
                }
            },
        }
    }
}

/// How a run goes on does not depend on what it waited for.
proof fn lemma_resumed_whatever_waited(state: RunState, waiting: WaitingView)
    ensures
        (RunState { waiting, ..state }).resumed() == state.resumed(),
    decreases state.stack.len(),
{
    if state.stack.len() > 0 {
        let top = state.stack.last();
        if next_inclusion(top.file.elements@, top.next) is None {
            let next = RunState {
                stack: state.stack.drop_last(),
                ..state.with_file(top.path, top.finished())
            };
            lemma_resumed_whatever_waited(next, waiting);
        }
    }
}

} // verus!
