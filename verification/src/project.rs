//! A project: source files, what they include, and what was found out about them.
use crate::analysis::{file_end, Analysis, AnalysisView};
use crate::ast::{DtsFile, Reference};
use crate::context::{copy_of_includes, AnalysisContext, ContextView, ReferenceContext};
use crate::data::{FileId, FileType, ParserConfig, Span};
use crate::diagnostics::{diagnostics_view, Diagnostic, DiagnosticView};
use crate::error_codes::{Severity, SeverityMap};
use crate::graph::{edges_of, lemma_edges_of_finite, reached, reaches, Edges, FileGraph};
use crate::import_guard::acyclic;
use crate::keyed::KeyedMap;
use crate::loader::LoadOutcome;
use crate::text::texts;
use crate::tree::{load_requests, primaries_requests};
use std::collections::{HashMap, HashSet};
use vstd::prelude::*;

verus! {

/// How far the analysis of a file has come.
pub enum AnalysisStatus {
    NotAnalyzed,
    /// The file was analyzed together with all that it includes.
    Root(AnalysisContext),
    /// The file was analyzed as part of the file that includes it.
    Child,
}

/// How far the analysis of a file has come, as a mathematical value.
pub enum StatusView {
    NotAnalyzed,
    Root(ContextView),
    Child,
}

impl View for AnalysisStatus {
    type V = StatusView;

    open spec fn view(&self) -> StatusView {
        match self {
            AnalysisStatus::NotAnalyzed => StatusView::NotAnalyzed,
            AnalysisStatus::Root(context) => StatusView::Root(context@),
            AnalysisStatus::Child => StatusView::Child,
        }
    }
}

/// A file of a project.
pub struct ProjectFile {
    pub parent: Option<FileId>,
    pub includes: Vec<FileId>,
    pub parser_diagnostics: Vec<Diagnostic>,
    pub analysis_diagnostics: Vec<Diagnostic>,
    pub file: Option<DtsFile>,
    pub file_type: FileType,
    pub source: String,
    pub analysis_status: AnalysisStatus,
}

/// A file of a project as a mathematical value.
pub struct ProjectFileView {
    pub parent: Option<FileId>,
    pub includes: Seq<FileId>,
    pub parser_diagnostics: Seq<DiagnosticView>,
    pub analysis_diagnostics: Seq<DiagnosticView>,
    pub file: Option<DtsFile>,
    pub file_type: FileType,
    pub source: Seq<char>,
    pub status: StatusView,
}

impl View for ProjectFile {
    type V = ProjectFileView;

    open spec fn view(&self) -> ProjectFileView {
        ProjectFileView {
            parent: self.parent,
            includes: self.includes@,
            parser_diagnostics: diagnostics_view(self.parser_diagnostics@),
            analysis_diagnostics: diagnostics_view(self.analysis_diagnostics@),
            file: self.file,
            file_type: self.file_type,
            source: self.source@,
            status: self.analysis_status@,
        }
    }
}

/// Whether one of some findings is an error.
pub open spec fn any_error(diagnostics: Seq<DiagnosticView>, severities: SeverityMap) -> bool {
    exists|i: int|
        0 <= i < diagnostics.len() && severities.severity((#[trigger] diagnostics[i]).kind)
            == Severity::Error
}

impl ProjectFileView {
    /// All findings about the file: first those of the parser.
    pub open spec fn diagnostics(self) -> Seq<DiagnosticView> {
        self.parser_diagnostics + self.analysis_diagnostics
    }
}

/// A place-holder for a file that is being parsed.
pub open spec fn sentinel_view() -> ProjectFileView {
    ProjectFileView {
        parent: None,
        includes: Seq::empty(),
        parser_diagnostics: Seq::empty(),
        analysis_diagnostics: Seq::empty(),
        file: None,
        file_type: FileType::Unknown,
        source: Seq::empty(),
        status: StatusView::NotAnalyzed,
    }
}

/// A file that was parsed but not analyzed.
pub open spec fn parsed_view(
    parent: Option<FileId>,
    includes: Seq<FileId>,
    diagnostics: Seq<DiagnosticView>,
    file_type: FileType,
    file: DtsFile,
    source: Seq<char>,
) -> ProjectFileView {
    ProjectFileView {
        parent,
        includes,
        parser_diagnostics: diagnostics,
        analysis_diagnostics: Seq::empty(),
        file: Some(file),
        file_type,
        source,
        status: StatusView::NotAnalyzed,
    }
}

/// A file that the parser gave up on.
pub open spec fn unrecoverable_view(
    err: DiagnosticView,
    source: Seq<char>,
    file_type: FileType,
) -> ProjectFileView {
    ProjectFileView { parser_diagnostics: seq![err], source, file_type, ..sentinel_view() }
}

impl ProjectFile {
    /// A file that was parsed but not analyzed.
    pub fn parsed(
        parent: Option<FileId>,
        includes: Vec<FileId>,
        diagnostics: Vec<Diagnostic>,
        file_type: FileType,
        file: DtsFile,
        source: String,
    ) -> (r: ProjectFile)
        ensures
            r@ == parsed_view(
                parent,
                includes@,
                diagnostics_view(diagnostics@),
                file_type,
                file,
                source@,
            ),
    {
        let r = ProjectFile {
            parent,
            includes,
            parser_diagnostics: diagnostics,
            analysis_diagnostics: Vec::new(),
            file: Some(file),
            file_type,
            source,
            analysis_status: AnalysisStatus::NotAnalyzed,
        };
        assert(r@.analysis_diagnostics =~= Seq::empty());
        r
    }

    /// A place-holder for a file that is being parsed.
    pub fn sentinel() -> (r: ProjectFile)
        ensures
            r@ == sentinel_view(),
    {
        proof {
            reveal_strlit("");
        }
        let r = ProjectFile {
            parent: None,
            includes: Vec::new(),
            parser_diagnostics: Vec::new(),
            analysis_diagnostics: Vec::new(),
            file: None,
            file_type: FileType::Unknown,
            source: "".to_owned(),
            analysis_status: AnalysisStatus::NotAnalyzed,
        };
        assert(r@.parser_diagnostics =~= Seq::empty());
        assert(r@.analysis_diagnostics =~= Seq::empty());
        assert(r@.source =~= Seq::empty());
        r
    }

    /// A file that the parser gave up on.
    pub fn unrecoverable(err: Diagnostic, source: String, file_type: FileType) -> (r: ProjectFile)
        ensures
            r@ == unrecoverable_view(err@, source@, file_type),
    {
        let mut parser_diagnostics: Vec<Diagnostic> = Vec::new();
        parser_diagnostics.push(err);
        let r = ProjectFile {
            parent: None,
            includes: Vec::new(),
            parser_diagnostics,
            analysis_diagnostics: Vec::new(),
            file: None,
            file_type,
            source,
            analysis_status: AnalysisStatus::NotAnalyzed,
        };
        assert(r@.parser_diagnostics =~= seq![err@]);
        assert(r@.analysis_diagnostics =~= Seq::empty());
        r
    }

    /// All findings about the file: first those of the parser.
    pub fn diagnostics(&self) -> (r: Vec<&Diagnostic>)
        ensures
            referred_view(r@) == self@.diagnostics(),
    {
        let mut r: Vec<&Diagnostic> = Vec::new();
        push_all(&mut r, &self.parser_diagnostics);
        push_all(&mut r, &self.analysis_diagnostics);
        assert(referred_view(r@) =~= self@.diagnostics());
        r
    }

    /// Forgets all findings about the file.
    pub fn clear_diagnostics(&mut self)
        ensures
            final(self)@ == (ProjectFileView {
                parser_diagnostics: Seq::empty(),
                analysis_diagnostics: Seq::empty(),
                ..old(self)@
            }),
    {
        self.parser_diagnostics.clear();
        self.analysis_diagnostics.clear();
        assert(self@.parser_diagnostics =~= Seq::empty());
        assert(self@.analysis_diagnostics =~= Seq::empty());
    }

    /// Whether one of the findings about the file is an error.
    pub fn has_errors(&self, severity_map: &SeverityMap) -> (r: bool)
        ensures
            r == any_error(self@.diagnostics(), *severity_map),
    {
        let diagnostics = self.diagnostics();
        let ghost all = referred_view(diagnostics@);
        let mut i: usize = 0;
        while i < diagnostics.len()
            invariant
                i <= diagnostics@.len(),
                all == referred_view(diagnostics@),
                all == self@.diagnostics(),
                forall|j: int|
                    0 <= j < i ==> severity_map.severity((#[trigger] all[j]).kind)
                        != Severity::Error,
            decreases diagnostics@.len() - i,
        {
            assert(all[i as int] == diagnostics@[i as int]@);
            if diagnostics[i].severity(severity_map) == Severity::Error {
                return true;
            }
            i += 1;
        }
        false
    }

    /// The text of the file.
    pub fn source(&self) -> (r: &String)
        ensures
            r@ == self@.source,
    {
        &self.source
    }
}

/// Puts references to findings behind others.
fn push_all<'a>(to: &mut Vec<&'a Diagnostic>, from: &'a Vec<Diagnostic>)
    ensures
        final(to)@.len() == old(to)@.len() + from@.len(),
        forall|i: int|
            0 <= i < final(to)@.len() ==> *(#[trigger] final(to)@[i]) == if i < old(to)@.len() {
                *old(to)@[i]
            } else {
                from@[i - old(to)@.len()]
            },
{
    let mut i: usize = 0;
    while i < from.len()
        invariant
            i <= from@.len(),
            to@.len() == old(to)@.len() + i,
            forall|j: int|
                0 <= j < to@.len() ==> *(#[trigger] to@[j]) == if j < old(to)@.len() {
                    *old(to)@[j]
                } else {
                    from@[j - old(to)@.len()]
                },
        decreases from@.len() - i,
    {
        to.push(&from[i]);
        i += 1;
    }
}

/// A project.
pub struct Project {
    files: HashMap<FileId, ProjectFile>,
    root_file: Option<FileId>,
    pub severities: SeverityMap,
    config: ParserConfig,
}

/// A project as a mathematical value.
pub struct ProjectView {
    pub files: Map<FileId, ProjectFileView>,
    pub root_file: Option<FileId>,
    pub severities: SeverityMap,
    pub config: ParserConfig,
}

impl View for Project {
    type V = ProjectView;

    closed spec fn view(&self) -> ProjectView {
        ProjectView {
            files: self.files@.map_values(|file: ProjectFile| file@),
            root_file: self.root_file,
            severities: self.severities,
            config: self.config,
        }
    }
}

/// A project has finitely many files.
pub proof fn lemma_files_finite(project: &Project)
    ensures
        project@.files.dom().finite(),
{
    assert(project@.files.dom() =~= project.files@.dom());
}

impl ProjectView {
    /// Whether a path leads to a file of the project with errors.
    pub open spec fn is_faulty(self, canonical: Option<FileId>) -> bool {
        canonical matches Some(file) && self.files.contains_key(file) && any_error(
            self.files[file].diagnostics(),
            self.severities,
        )
    }
}

impl Default for Project {
    fn default() -> (r: Project)
        ensures
            r@.files == Map::<FileId, ProjectFileView>::empty(),
            r@.root_file is None,
            forall|code: crate::error_codes::ErrorCode| #[trigger]
                r@.severities.severity(code) == crate::error_codes::default_severity(code),
            r@.config == (ParserConfig { unlimited_property_length: false }),
    {
        let r = Project {
            files: HashMap::new(),
            root_file: None,
            severities: SeverityMap::default(),
            config: ParserConfig::default(),
        };
        assert(r@.files =~= Map::<FileId, ProjectFileView>::empty());
        r
    }
}

impl Project {
    /// The file that a path leads to, given its canonical path if it has one.
    pub fn get_file(&self, canonical: Option<FileId>) -> (r: Option<&ProjectFile>)
        ensures
            match r {
                Some(file) => canonical matches Some(path) && self@.files.contains_key(path)
                    && self@.files[path] == file@,
                None => !(canonical matches Some(path) && self@.files.contains_key(path)),
            },
    {
        match canonical {
            Some(path) => self.files.get(&path),
            None => None,
        }
    }

    /// Whether a file is in the project.
    pub fn contains_file(&self, path: FileId) -> (r: bool)
        ensures
            r == self@.files.contains_key(path),
    {
        self.files.contains_key(&path)
    }

    /// Puts a file into the project, in place of what was there before.
    pub(crate) fn insert_file(&mut self, path: FileId, file: ProjectFile)
        ensures
            final(self)@ == (ProjectView {
                files: old(self)@.files.insert(path, file@),
                ..old(self)@
            }),
    {
        self.files.insert(path, file);
        assert(self@.files =~= old(self)@.files.insert(path, file@));
    }

    /// Whether a path leads to a file of the project with errors, given its canonical
    /// path if it has one.
    pub fn is_faulty(&self, canonical: Option<FileId>) -> (r: bool)
        ensures
            r == self@.is_faulty(canonical),
    {
        match self.get_file(canonical) {
            Some(file) => file.has_errors(&self.severities),
            None => false,
        }
    }
}

/// The file that a file leads to along a number of parents, if all on the way are in
/// the project.
pub open spec fn ancestor(files: Map<FileId, ProjectFileView>, file: FileId, steps: nat) -> Option<
    FileId,
>
    decreases steps,
{
    if steps == 0 {
        if files.contains_key(file) {
            Some(file)
        } else {
            None
        }
    } else {
        match ancestor(files, file, (steps - 1) as nat) {
            Some(child) => match files[child].parent {
                Some(parent) if files.contains_key(parent) => Some(parent),
                _ => None,
            },
            None => None,
        }
    }
}

/// Whether a number of parents leads from a file to one without a parent.
pub open spec fn ends_after(
    files: Map<FileId, ProjectFileView>,
    file: FileId,
    steps: nat,
) -> bool {
    ancestor(files, file, steps) matches Some(root) && files[root].parent is None
}

/// The file without a parent that parents lead to from a file. There is none if they
/// lead out of the project, or go round in a circle.
pub open spec fn root_of(files: Map<FileId, ProjectFileView>, file: FileId) -> Option<FileId> {
    if exists|steps: nat| ends_after(files, file, steps) {
        ancestor(files, file, choose|steps: nat| ends_after(files, file, steps))
    } else {
        None
    }
}

/// Behind the end of a chain of parents there is nothing.
pub proof fn lemma_nothing_behind_end(
    files: Map<FileId, ProjectFileView>,
    file: FileId,
    steps: nat,
    more: nat,
)
    requires
        ends_after(files, file, steps) || ancestor(files, file, steps) is None,
        more > steps,
    ensures
        ancestor(files, file, more) is None,
    decreases more,
{
    if more > steps + 1 {
        lemma_nothing_behind_end(files, file, steps, (more - 1) as nat);
    }
}

/// A chain of parents that ends, ends at the root.
pub proof fn lemma_root_at_end(files: Map<FileId, ProjectFileView>, file: FileId, steps: nat)
    requires
        ends_after(files, file, steps),
    ensures
        root_of(files, file) == ancestor(files, file, steps),
{
    let chosen = choose|steps: nat| ends_after(files, file, steps);
    if chosen < steps {
        lemma_nothing_behind_end(files, file, chosen, steps);
    } else if steps < chosen {
        lemma_nothing_behind_end(files, file, steps, chosen);
    }
}

/// Parents that stay within some files, all of which have a parent, never end.
proof fn lemma_never_ends(
    files: Map<FileId, ProjectFileView>,
    circle: Set<FileId>,
    file: FileId,
    steps: nat,
)
    requires
        circle.contains(file),
        forall|f: FileId| #[trigger]
            circle.contains(f) ==> files.contains_key(f) && files[f].parent is Some
                && circle.contains(files[f].parent->0),
    ensures
        ancestor(files, file, steps) matches Some(f) && circle.contains(f),
        !ends_after(files, file, steps),
    decreases steps,
{
    if steps > 0 {
        lemma_never_ends(files, circle, file, (steps - 1) as nat);
    }
}

impl ProjectView {
    /// The root of the files that a file is included by, and how far its analysis has
    /// come.
    pub open spec fn analysis_root_for(self, file: FileId) -> Option<(FileId, StatusView)> {
        match root_of(self.files, file) {
            Some(root) => Some((root, self.files[root].status)),
            None => None,
        }
    }

    /// What is known of the device tree that a file is part of.
    pub open spec fn analysis_of(self, file: FileId) -> Option<ContextView> {
        match self.analysis_root_for(file) {
            Some((_, StatusView::Root(context))) => Some(context),
            _ => None,
        }
    }
}

impl Project {
    /// The root of the files that a file is included by, and how far its analysis has
    /// come. It is the file itself, or the root of the tree that the file is a part of.
    pub fn analysis_root_for(&self, file: FileId) -> (r: Option<(FileId, &AnalysisStatus)>)
        ensures
            match r {
                Some((root, status)) => self@.analysis_root_for(file) == Some((root, status@))
                    && self@.files.contains_key(root),
                None => self@.analysis_root_for(file) is None,
            },
    {
        let ghost files = self@.files;
        let mut current = file;
        let mut seen: HashSet<FileId> = HashSet::new();
        let ghost mut steps: nat = 0;
        loop
            invariant
                files == self@.files,
                seen@.finite(),
                self.files@.dom().finite(),
                seen@.subset_of(self.files@.dom()),
                steps == 0 ==> current == file && seen@ =~= Set::<FileId>::empty(),
                steps > 0 ==> (ancestor(files, file, (steps - 1) as nat) matches Some(child)
                    && files[child].parent == Some(current)),
                steps > 0 ==> seen@.contains(file),
                forall|k: nat| k < steps ==> !(#[trigger] ends_after(files, file, k)),
                forall|f: FileId| #[trigger]
                    seen@.contains(f) ==> files[f].parent is Some && (seen@.contains(
                        files[f].parent->0,
                    ) || files[f].parent->0 == current),
            decreases self.files@.dom().len() - seen@.len(),
        {
            proof {
                vstd::set_lib::lemma_len_subset(seen@, self.files@.dom());
            }
            if seen.contains(&current) {
                proof {
                    assert forall|k: nat| !(#[trigger] ends_after(files, file, k)) by {
                        lemma_never_ends(files, seen@, file, k);
                    }
                }
                return None;
            }
            match self.files.get(&current) {
                None => {
                    proof {
                        assert(ancestor(files, file, steps) is None);
                        assert forall|k: nat| !(#[trigger] ends_after(files, file, k)) by {
                            if k > steps {
                                lemma_nothing_behind_end(files, file, steps, k);
                            }
                        }
                    }
                    return None;
                },
                Some(project_file) => {
                    assert(ancestor(files, file, steps) == Some(current));
                    assert(files[current] == project_file@);
                    match project_file.parent {
                        Some(parent) => {
                            seen.insert(current);
                            proof {
                                assert(self.files@.dom().contains(current));
                                vstd::set_lib::lemma_len_subset(seen@, self.files@.dom());
                                steps = steps + 1;
                            }
                            current = parent;
                        },
                        None => {
                            proof {
                                lemma_root_at_end(files, file, steps);
                            }
                            return Some((current, &project_file.analysis_status));
                        },
                    }
                },
            }
        }
    }

    /// What is known of the device tree that a file is part of.
    pub fn get_analysis(&self, path: FileId) -> (r: Option<&AnalysisContext>)
        ensures
            match r {
                Some(context) => self@.analysis_of(path) == Some(context@),
                None => self@.analysis_of(path) is None,
            },
    {
        match self.analysis_root_for(path) {
            Some((_, AnalysisStatus::Root(context))) => Some(context),
            _ => None,
        }
    }
}

/// A file that is to be analyzed, and the file that it is analyzed as a part of.
#[derive(Clone, Copy, PartialEq, Eq, Debug, Structural)]
pub struct PlannedFile {
    pub file: FileId,
    pub parent: Option<FileId>,
}

/// A walk through included files: the files that it came to, and those that are to
/// be analyzed, in order.
pub struct Walk {
    pub seen: Set<FileId>,
    pub order: Seq<PlannedFile>,
}

/// A walk that goes on to a file and all that it includes, unless it has come to the
/// file before. What a file includes comes before the file itself. The walk goes at
/// most `depth` files of the project deep.
pub open spec fn visit(
    files: Map<FileId, ProjectFileView>,
    depth: nat,
    file: FileId,
    parent: Option<FileId>,
    walk: Walk,
) -> Walk
    decreases depth, 0nat,
{
    if walk.seen.contains(file) {
        walk
    } else {
        let marked = Walk { seen: walk.seen.insert(file), ..walk };
        if files.contains_key(file) && depth > 0 {
            let below = visit_all(
                files,
                (depth - 1) as nat,
                files[file].includes,
                file,
                marked,
            );
            if files[file].file is Some {
                Walk { order: below.order.push(PlannedFile { file, parent }), ..below }
            } else {
                below
            }
        } else {
            marked
        }
    }
}

/// A walk that goes on to each of the files that a file includes.
pub open spec fn visit_all(
    files: Map<FileId, ProjectFileView>,
    depth: nat,
    includes: Seq<FileId>,
    parent: FileId,
    walk: Walk,
) -> Walk
    decreases depth, includes.len() + 1,
{
    if includes.len() == 0 {
        walk
    } else {
        visit(
            files,
            depth,
            includes.last(),
            Some(parent),
            visit_all(files, depth, includes.drop_last(), parent, walk),
        )
    }
}

/// How many files of the project a walk has not come to.
pub open spec fn unseen(files: Map<FileId, ProjectFileView>, seen: Set<FileId>) -> nat {
    files.dom().difference(seen).len()
}

/// The files that are analyzed together with a root, in order. No walk goes deeper
/// than there are files.
pub open spec fn analysis_order(files: Map<FileId, ProjectFileView>, root: FileId) -> Seq<
    PlannedFile,
> {
    visit(
        files,
        files.dom().len(),
        root,
        None,
        Walk { seen: Set::empty(), order: Seq::empty() },
    ).order
}

/// A walk that has come to more files has come to all but fewer.
pub proof fn lemma_unseen_shrinks(
    files: Map<FileId, ProjectFileView>,
    seen: Set<FileId>,
    more: Set<FileId>,
)
    requires
        files.dom().finite(),
        seen.subset_of(more),
    ensures
        unseen(files, more) <= unseen(files, seen),
{
    vstd::set_lib::lemma_len_subset(
        files.dom().difference(more),
        files.dom().difference(seen),
    );
}

/// To come to a file of the project leaves one fewer.
pub proof fn lemma_unseen_one_less(
    files: Map<FileId, ProjectFileView>,
    seen: Set<FileId>,
    file: FileId,
)
    requires
        files.dom().finite(),
        files.contains_key(file),
        !seen.contains(file),
    ensures
        unseen(files, seen.insert(file)) + 1 == unseen(files, seen),
{
    assert(files.dom().difference(seen.insert(file)) =~= files.dom().difference(seen).remove(
        file,
    ));
}

impl Project {
    /// Walks on to a file and all that it includes.
    fn collect(
        &self,
        file: FileId,
        parent: Option<FileId>,
        seen: &mut HashSet<FileId>,
        order: &mut Vec<PlannedFile>,
    )
        ensures
            forall|depth: nat|
                depth >= unseen(self@.files, old(seen)@) ==> (Walk {
                    seen: final(seen)@,
                    order: final(order)@,
                }) == #[trigger] visit(
                    self@.files,
                    depth,
                    file,
                    parent,
                    Walk { seen: old(seen)@, order: old(order)@ },
                ),
            old(seen)@.subset_of(final(seen)@),
        decreases unseen(self@.files, old(seen)@),
    {
        let ghost files = self@.files;
        assert(files.dom() =~= self.files@.dom());
        if seen.contains(&file) {
            return;
        }
        seen.insert(file);
        let project_file = match self.files.get(&file) {
            Some(project_file) => project_file,
            None => {
                return;
            },
        };
        let ghost start = Walk { seen: old(seen)@, order: old(order)@ };
        let ghost marked = Walk { seen: start.seen.insert(file), ..start };
        proof {
            assert(files[file] == project_file@);
            lemma_unseen_one_less(files, start.seen, file);
        }
        let includes = &project_file.includes;
        let mut i: usize = 0;
        assert(includes@.take(0) =~= Seq::empty());
        while i < includes.len()
            invariant
                i <= includes@.len(),
                files == self@.files,
                files.dom().finite(),
                marked.seen == old(seen)@.insert(file),
                marked.seen.subset_of(seen@),
                unseen(files, marked.seen) < unseen(files, old(seen)@),
                forall|depth: nat|
                    depth >= unseen(files, marked.seen) ==> (Walk { seen: seen@, order: order@ })
                        == #[trigger] visit_all(
                        files,
                        depth,
                        includes@.take(i as int),
                        file,
                        marked,
                    ),
            decreases includes@.len() - i,
        {
            let ghost before = Walk { seen: seen@, order: order@ };
            proof {
                lemma_unseen_shrinks(files, marked.seen, seen@);
                assert(includes@.take(i + 1).drop_last() =~= includes@.take(i as int));
            }
            self.collect(includes[i], Some(file), seen, order);
            proof {
                assert forall|depth: nat| depth >= unseen(files, marked.seen) implies (Walk {
                    seen: seen@,
                    order: order@,
                }) == #[trigger] visit_all(
                    files,
                    depth,
                    includes@.take(i + 1),
                    file,
                    marked,
                ) by {
                    assert(before == visit_all(
                        files,
                        depth,
                        includes@.take(i as int),
                        file,
                        marked,
                    ));
                    assert((Walk { seen: seen@, order: order@ }) == visit(
                        files,
                        depth,
                        includes@[i as int],
                        Some(file),
                        before,
                    ));
                }
            }
            i += 1;
        }
        let ghost below = Walk { seen: seen@, order: order@ };
        assert(includes@.take(i as int) =~= includes@);
        if project_file.file.is_some() {
            order.push(PlannedFile { file, parent });
        }
        proof {
            assert forall|depth: nat| depth >= unseen(files, start.seen) implies (Walk {
                seen: seen@,
                order: order@,
            }) == #[trigger] visit(files, depth, file, parent, start) by {
                assert(below == visit_all(
                    files,
                    (depth - 1) as nat,
                    files[file].includes,
                    file,
                    marked,
                ));
            }
        }
    }

    /// The files that are analyzed together with a file, in order: those of the whole
    /// device tree that the file is part of. There are none if the file is not in the
    /// project.
    pub fn analysis_plan(&self, element: FileId) -> (r: Vec<PlannedFile>)
        ensures
            r@ == match root_of(self@.files, element) {
                Some(root) => analysis_order(self@.files, root),
                None => Seq::empty(),
            },
    {
        let mut order: Vec<PlannedFile> = Vec::new();
        if let Some((root, _)) = self.analysis_root_for(element) {
            let mut seen: HashSet<FileId> = HashSet::new();
            proof {
                assert(self@.files.dom().difference(Set::empty()) =~= self@.files.dom());
            }
            self.collect(root, None, &mut seen, &mut order);
        }
        order
    }
}

/// A project whose files are being analyzed, and what is known so far.
pub struct TreeState {
    pub project: ProjectView,
    pub known: AnalysisView,
}

impl TreeState {
    /// After a file was analyzed. `loads` says what came of the search for each file
    /// that is named in it.
    pub open spec fn after_file(self, planned: PlannedFile, loads: Seq<LoadOutcome>) -> TreeState {
        let file = self.project.files[planned.file];
        let end = file_end(self.known, file.file->0, file.file_type, self.project, loads);
        TreeState {
            known: end.known,
            project: ProjectView {
                files: self.project.files.insert(
                    planned.file,
                    ProjectFileView {
                        status: StatusView::Child,
                        parent: planned.parent,
                        analysis_diagnostics: end.findings(),
                        ..file
                    },
                ),
                ..self.project
            },
        }
    }

    /// After files were analyzed.
    pub open spec fn after_files(
        self,
        order: Seq<PlannedFile>,
        loads: Seq<Vec<LoadOutcome>>,
    ) -> TreeState
        decreases order.len(),
    {
        if order.len() == 0 {
            self
        } else {
            self.after_files(order.drop_last(), loads).after_file(
                order.last(),
                loads[order.len() - 1]@,
            )
        }
    }
}

impl ProjectView {
    /// The analysis of the files of a root at its start. Which file each name stands
    /// for is still known from the analysis before.
    pub open spec fn tree_start(self, root: FileId) -> TreeState {
        TreeState {
            project: self,
            known: AnalysisView {
                imports: Set::empty(),
                context: ContextView {
                    includes: match self.files[root].status {
                        StatusView::Root(context) => context.includes,
                        _ => Map::empty(),
                    },
                    ..ContextView::empty()
                },
            },
        }
    }

    /// The project after all files of a root were analyzed.
    pub open spec fn analyzed(self, root: FileId, loads: Seq<Vec<LoadOutcome>>) -> ProjectView {
        let end = self.tree_start(root).after_files(analysis_order(self.files, root), loads);
        ProjectView {
            files: end.project.files.insert(
                root,
                ProjectFileView {
                    status: StatusView::Root(end.known.context),
                    ..end.project.files[root]
                },
            ),
            ..end.project
        }
    }

    /// Whether `loads` says what came of the search for each file that is named in
    /// the files that are to be analyzed.
    pub open spec fn has_loads(
        self,
        order: Seq<PlannedFile>,
        loads: Seq<Vec<LoadOutcome>>,
    ) -> bool {
        &&& loads.len() == order.len()
        &&& forall|i: int|
            0 <= i < order.len() ==> (#[trigger] loads[i])@.len() >= primaries_requests(
                (self.files[order[i].file].file->0).elements@,
            ).len()
    }
}

/// Whether each of some files is in a project and was parsed.
pub open spec fn all_parsed(
    files: Map<FileId, ProjectFileView>,
    order: Seq<PlannedFile>,
) -> bool {
    forall|i: int|
        0 <= i < order.len() ==> files.contains_key((#[trigger] order[i]).file)
            && files[order[i].file].file is Some
}

/// The files that are analyzed together with a root were parsed.
pub proof fn lemma_plan_parsed(files: Map<FileId, ProjectFileView>, root: FileId)
    ensures
        all_parsed(files, analysis_order(files, root)),
{
    lemma_visit_plans_parsed(
        files,
        files.dom().len(),
        root,
        None,
        Walk { seen: Set::empty(), order: Seq::empty() },
    );
}

/// A walk plans only files that were parsed.
proof fn lemma_visit_plans_parsed(
    files: Map<FileId, ProjectFileView>,
    depth: nat,
    file: FileId,
    parent: Option<FileId>,
    walk: Walk,
)
    requires
        all_parsed(files, walk.order),
    ensures
        all_parsed(files, visit(files, depth, file, parent, walk).order),
    decreases depth, 0nat,
{
    if !walk.seen.contains(file) && files.contains_key(file) && depth > 0 {
        let marked = Walk { seen: walk.seen.insert(file), ..walk };
        lemma_visit_all_plans_parsed(
            files,
            (depth - 1) as nat,
            files[file].includes,
            file,
            marked,
        );
    }
}

proof fn lemma_visit_all_plans_parsed(
    files: Map<FileId, ProjectFileView>,
    depth: nat,
    includes: Seq<FileId>,
    parent: FileId,
    walk: Walk,
)
    requires
        all_parsed(files, walk.order),
    ensures
        all_parsed(files, visit_all(files, depth, includes, parent, walk).order),
    decreases depth, includes.len() + 1,
{
    if includes.len() > 0 {
        lemma_visit_all_plans_parsed(files, depth, includes.drop_last(), parent, walk);
        lemma_visit_plans_parsed(
            files,
            depth,
            includes.last(),
            Some(parent),
            visit_all(files, depth, includes.drop_last(), parent, walk),
        );
    }
}

/// The analysis of files changes neither which files there are nor what they hold.
pub proof fn lemma_files_stay(
    start: TreeState,
    order: Seq<PlannedFile>,
    loads: Seq<Vec<LoadOutcome>>,
)
    requires
        all_parsed(start.project.files, order),
    ensures
        ({
            let end = start.after_files(order, loads).project;
            &&& end.files.dom() == start.project.files.dom()
            &&& end.root_file == start.project.root_file
            &&& end.severities == start.project.severities
            &&& end.config == start.project.config
            &&& forall|file: FileId| #[trigger]
                end.files.contains_key(file) ==> {
                    let now = end.files[file];
                    let before = start.project.files[file];
                    &&& now.file == before.file
                    &&& now.file_type == before.file_type
                    &&& now.includes == before.includes
                    &&& now.source == before.source
                    &&& now.parser_diagnostics == before.parser_diagnostics
                }
        }),
    decreases order.len(),
{
    if order.len() > 0 {
        assert(order[order.len() - 1] == order.last());
        assert forall|i: int| 0 <= i < order.drop_last().len() implies (
        start.project.files.contains_key((#[trigger] order.drop_last()[i]).file)
            && start.project.files[order.drop_last()[i].file].file is Some) by {
            assert(order[i] == order.drop_last()[i]);
        }
        lemma_files_stay(start, order.drop_last(), loads);
        assert(start.after_files(order, loads).project.files.dom()
            =~= start.project.files.dom());
    }
}

impl Project {
    /// The names of the files that a file names, in order, and the path that they are
    /// searched from.
    pub fn requests_of(&self, file: FileId) -> (r: Option<(FileId, Vec<String>)>)
        ensures
            match r {
                Some((source, requests)) => {
                    &&& self@.files.contains_key(file)
                    &&& self@.files[file].file matches Some(dts_file)
                    &&& source == dts_file.source
                    &&& texts(requests@) == primaries_requests(dts_file.elements@)
                },
                None => !(self@.files.contains_key(file) && self@.files[file].file is Some),
            },
    {
        match self.files.get(&file) {
            Some(project_file) => match &project_file.file {
                Some(dts_file) => Some((dts_file.source, load_requests(dts_file))),
                None => None,
            },
            None => None,
        }
    }

    /// Analyzes a file as a part of the device tree.
    fn analyze_one(
        &mut self,
        analysis: &mut Analysis,
        planned: PlannedFile,
        loads: &Vec<LoadOutcome>,
    )
        requires
            old(self)@.files.contains_key(planned.file),
            old(self)@.files[planned.file].file is Some,
            loads@.len() >= primaries_requests(
                (old(self)@.files[planned.file].file->0).elements@,
            ).len(),
        ensures
            (TreeState { project: final(self)@, known: final(analysis)@ }) == (TreeState {
                project: old(self)@,
                known: old(analysis)@,
            }).after_file(planned, loads@),
            acyclic(old(analysis)@.imports) ==> acyclic(final(analysis)@.imports),
    {
        let result = match self.files.get(&planned.file) {
            Some(project_file) => match &project_file.file {
                Some(dts_file) => analysis.analyze_file(
                    dts_file,
                    project_file.file_type,
                    &*self,
                    loads.as_slice(),
                ),
                None => {
                    assert(false);
                    return;
                },
            },
            None => {
                assert(false);
                return;
            },
        };
        if let Some(project_file) = self.files.remove(&planned.file) {
            let mut project_file = project_file;
            project_file.analysis_status = AnalysisStatus::Child;
            project_file.parent = planned.parent;
            project_file.analysis_diagnostics = result.diagnostics;
            self.files.insert(planned.file, project_file);
            assert(self@.files =~= old(self)@.files.insert(planned.file, project_file@));
        }
    }

    /// Analyzes all files of the device tree that a file is part of. `loads` says, for
    /// each file of the analysis plan, what came of the search for each file that is
    /// named in it.
    pub fn analyze_tree_for(&mut self, element: FileId, loads: &Vec<Vec<LoadOutcome>>)
        requires
            root_of(old(self)@.files, element) matches Some(root) ==> old(self)@.has_loads(
                analysis_order(old(self)@.files, root),
                loads@,
            ),
        ensures
            final(self)@ == match root_of(old(self)@.files, element) {
                Some(root) => old(self)@.analyzed(root, loads@),
                None => old(self)@,
            },
    {
        let (root, include_cache) = match self.analysis_root_for(element) {
            Some((root, AnalysisStatus::Root(context))) => (
                root,
                copy_of_includes(context.get_includes()),
            ),
            Some((root, _)) => (root, KeyedMap::new()),
            None => {
                return;
            },
        };
        let mut analysis = Analysis::new(Some(include_cache));
        let order = self.analysis_plan(element);
        let ghost start = self@.tree_start(root);
        proof {
            lemma_plan_parsed(self@.files, root);
            assert(order@.take(0) =~= Seq::empty());
        }
        let mut i: usize = 0;
        while i < order.len()
            invariant
                i <= order@.len(),
                start == old(self)@.tree_start(root),
                order@ == analysis_order(old(self)@.files, root),
                old(self)@.has_loads(order@, loads@),
                all_parsed(old(self)@.files, order@),
                (TreeState { project: self@, known: analysis@ }) == start.after_files(
                    order@.take(i as int),
                    loads@,
                ),
            decreases order@.len() - i,
        {
            proof {
                assert(order@.take(i + 1).drop_last() =~= order@.take(i as int));
                assert forall|j: int| 0 <= j < i implies (old(self)@.files.contains_key(
                    (#[trigger] order@.take(i as int)[j]).file,
                ) && old(self)@.files[order@.take(i as int)[j].file].file is Some) by {
                    assert(order@[j] == order@.take(i as int)[j]);
                }
                lemma_files_stay(start, order@.take(i as int), loads@);
                assert(old(self)@.files.contains_key(order@[i as int].file));
            }
            self.analyze_one(&mut analysis, order[i], &loads[i]);
            i += 1;
        }
        proof {
            assert(order@.take(i as int) =~= order@);
            lemma_files_stay(start, order@, loads@);
        }
        if let Some(project_file) = self.files.remove(&root) {
            let mut project_file = project_file;
            project_file.analysis_status = AnalysisStatus::Root(analysis.into_context());
            self.files.insert(root, project_file);
        }
        proof {
            assert(self@.files =~= old(self)@.analyzed(root, loads@).files);
        }
    }
}

/// The files that each file includes.
pub open spec fn include_lists(files: Map<FileId, ProjectFileView>) -> Map<FileId, Seq<FileId>> {
    files.map_values(|file: ProjectFileView| file.includes)
}

/// Which files include which others.
pub open spec fn include_edges(files: Map<FileId, ProjectFileView>) -> Edges {
    edges_of(include_lists(files))
}

impl FileGraph for Project {
    open spec fn edges(&self) -> Edges {
        include_edges(self@.files)
    }

    proof fn lemma_edges_finite(&self) {
        assert(include_lists(self@.files).dom() =~= self.files@.dom());
        lemma_edges_of_finite(include_lists(self@.files));
    }

    fn successors(&self, file: FileId) -> (r: Option<&Vec<FileId>>) {
        match self.files.get(&file) {
            Some(project_file) => Some(&project_file.includes),
            None => None,
        }
    }
}

impl ProjectView {
    /// Without a file and all that it includes, at once or by way of other files.
    pub open spec fn without_tree(self, root: FileId) -> ProjectView {
        ProjectView {
            files: self.files.restrict(
                Set::new(|file: FileId| !reaches(include_edges(self.files), root, file)),
            ),
            ..self
        }
    }
}

impl Project {
    /// The settings of the parser.
    pub fn parser_config(&self) -> (r: ParserConfig)
        ensures
            r == self@.config,
    {
        self.config
    }

    /// Sets the settings of the parser.
    pub fn set_parser_config(&mut self, config: ParserConfig)
        ensures
            final(self)@ == (ProjectView { config, ..old(self)@ }),
    {
        self.config = config;
    }

    /// Removes a file and all that it includes.
    fn remove_tree(&mut self, root_file: FileId)
        ensures
            final(self)@ == old(self)@.without_tree(root_file),
    {
        let doomed = reached(&*self, root_file);
        let paths = self.files();
        let ghost before = self@;
        let ghost edges = include_edges(before.files);
        let mut i: usize = 0;
        while i < paths.len()
            invariant
                i <= paths@.len(),
                before == old(self)@,
                edges == include_edges(before.files),
                paths@.no_duplicates(),
                forall|file: FileId| doomed@.contains(file) == reaches(edges, root_file, file),
                forall|file: FileId| #[trigger]
                    paths@.contains(file) == before.files.contains_key(file),
                self@.root_file == before.root_file,
                self@.severities == before.severities,
                self@.config == before.config,
                forall|file: FileId| #[trigger]
                    self@.files.contains_key(file) == (before.files.contains_key(file) && !(
                    paths@.take(i as int).contains(file) && reaches(edges, root_file, file))),
                forall|file: FileId| #[trigger]
                    self@.files.contains_key(file) ==> self@.files[file] == before.files[file],
            decreases paths@.len() - i,
        {
            let file = paths[i];
            proof {
                let taken = paths@.take(i as int);
                assert(paths@.take(i + 1) =~= taken.push(file));
                assert forall|f: FileId| #[trigger]
                    paths@.take(i + 1).contains(f) == (taken.contains(f) || f == file) by {
                    vstd::seq_lib::lemma_seq_contains_after_push(taken, file, f);
                }
            }
            if doomed.contains(&file) {
                let ghost between = self@;
                self.files.remove(&file);
                assert(self@.files =~= between.files.remove(file));
            }
            i += 1;
        }
        proof {
            assert(paths@.take(i as int) =~= paths@);
            assert(self@.files =~= before.without_tree(root_file).files);
        }
    }

    /// Forgets the root file and all that it includes. The root file, if there is one,
    /// is returned: it is to be added again.
    pub fn reset(&mut self) -> (r: Option<FileId>)
        ensures
            r == old(self)@.root_file,
            final(self)@ == match old(self)@.root_file {
                Some(root) => old(self)@.without_tree(root),
                None => old(self)@,
            },
    {
        match self.root_file {
            Some(root_file) => {
                self.remove_tree(root_file);
                Some(root_file)
            },
            None => None,
        }
    }

    /// Makes a file the root file, given its canonical path, and forgets it and all
    /// that it includes. The root file is to be added again.
    pub fn set_root_file_and_reset(&mut self, file_name: FileId) -> (r: FileId)
        ensures
            r == file_name,
            final(self)@ == (ProjectView {
                root_file: Some(file_name),
                ..old(self)@
            }).without_tree(file_name),
    {
        self.root_file = Some(file_name);
        self.remove_tree(file_name);
        file_name
    }

    /// The paths of all files, in some order.
    pub fn files(&self) -> (r: Vec<FileId>)
        ensures
            r@.no_duplicates(),
            r@.to_set() == self@.files.dom(),
            forall|file: FileId| #[trigger]
                r@.contains(file) == self@.files.contains_key(file),
    {
        let mut r: Vec<FileId> = Vec::new();
        let keys = self.files.keys();
        let ghost listed = vstd::std_specs::iter::IteratorSpec::remaining(&keys);
        for key in iter: keys
            invariant
                iter.seq() == listed,
                r@.len() == iter.index(),
                forall|i: int| 0 <= i < r@.len() ==> #[trigger] r@[i] == *listed[i],
        {
            r.push(*key);
        }
        proof {
            assert(r@ =~= listed.unref());
            assert(self@.files.dom() =~= self.files@.dom());
            assert forall|i: int, j: int|
                0 <= i < r@.len() && 0 <= j < r@.len() && i != j implies r@[i] != r@[j] by {
                assert(listed[i] != listed[j]);
            }
            assert forall|file: FileId| #[trigger]
                r@.contains(file) == self@.files.contains_key(file) by {
                assert(r@.to_set().contains(file) == r@.contains(file));
            }
        }
        r
    }
}

/// Whether a list holds each file of a project once.
pub open spec fn lists_all(paths: Seq<FileId>, files: Map<FileId, ProjectFileView>) -> bool {
    paths.no_duplicates() && paths.to_set() == files.dom()
}

/// The findings about files, one file after the other.
pub open spec fn findings_of(paths: Seq<FileId>, files: Map<FileId, ProjectFileView>) -> Seq<
    DiagnosticView,
>
    decreases paths.len(),
{
    if paths.len() == 0 {
        Seq::empty()
    } else {
        findings_of(paths.drop_last(), files) + files[paths.last()].diagnostics()
    }
}

/// Findings that are referred to, as mathematical values.
pub open spec fn referred_view(diagnostics: Seq<&Diagnostic>) -> Seq<DiagnosticView> {
    diagnostics.map_values(|diagnostic: &Diagnostic| diagnostic@)
}

impl Project {
    /// All findings about the file that a path leads to, given its canonical path if it
    /// has one.
    pub fn get_diagnostics(&self, canonical: Option<FileId>) -> (r: Vec<&Diagnostic>)
        ensures
            referred_view(r@) == match canonical {
                Some(path) if self@.files.contains_key(path) => self@.files[path].diagnostics(),
                _ => Seq::empty(),
            },
    {
        match self.get_file(canonical) {
            Some(file) => file.diagnostics(),
            None => {
                let r: Vec<&Diagnostic> = Vec::new();
                assert(referred_view(r@) =~= Seq::empty());
                r
            },
        }
    }

    /// All findings about all files, one file after the other, in some order.
    pub fn all_diagnostics(&self) -> (r: Vec<&Diagnostic>)
        ensures
            exists|paths: Seq<FileId>|
                lists_all(paths, self@.files) && referred_view(r@) == #[trigger] findings_of(
                    paths,
                    self@.files,
                ),
    {
        let paths = self.files();
        let mut r: Vec<&Diagnostic> = Vec::new();
        let mut i: usize = 0;
        assert(paths@.take(0) =~= Seq::empty());
        assert(referred_view(r@) =~= Seq::empty());
        while i < paths.len()
            invariant
                i <= paths@.len(),
                lists_all(paths@, self@.files),
                forall|file: FileId| #[trigger]
                    paths@.contains(file) == self@.files.contains_key(file),
                referred_view(r@) == findings_of(paths@.take(i as int), self@.files),
            decreases paths@.len() - i,
        {
            assert(paths@.take(i + 1).drop_last() =~= paths@.take(i as int));
            assert(paths@.contains(paths@[i as int]));
            let ghost before = r@;
            let mut more = self.get_diagnostics(Some(paths[i]));
            let ghost added = more@;
            r.append(&mut more);
            assert(referred_view(r@) =~= referred_view(before) + referred_view(added));
            i += 1;
        }
        assert(paths@.take(i as int) =~= paths@);
        r
    }

    /// All files, in some order.
    pub fn project_files(&self) -> (r: Vec<&ProjectFile>)
        ensures
            exists|paths: Seq<FileId>|
                #![trigger lists_all(paths, self@.files)]
                lists_all(paths, self@.files) && r@.len() == paths.len() && forall|i: int|
                    0 <= i < paths.len() ==> (#[trigger] r@[i])@ == self@.files[paths[i]],
    {
        let paths = self.files();
        let mut r: Vec<&ProjectFile> = Vec::new();
        let mut i: usize = 0;
        while i < paths.len()
            invariant
                i <= paths@.len(),
                lists_all(paths@, self@.files),
                forall|file: FileId| #[trigger]
                    paths@.contains(file) == self@.files.contains_key(file),
                r@.len() == i,
                forall|j: int| 0 <= j < i ==> (#[trigger] r@[j])@ == self@.files[paths@[j]],
            decreases paths@.len() - i,
        {
            assert(paths@.contains(paths@[i as int]));
            if let Some(file) = self.get_file(Some(paths[i])) {
                r.push(file);
            }
            i += 1;
        }
        r
    }

    /// What was parsed of the file that a path leads to, given its canonical path if it
    /// has one.
    pub fn get_root(&self, canonical: Option<FileId>) -> (r: Option<&DtsFile>)
        ensures
            match r {
                Some(file) => canonical matches Some(path) && self@.files.contains_key(path)
                    && self@.files[path].file == Some(*file),
                None => !(canonical matches Some(path) && self@.files.contains_key(path)
                    && self@.files[path].file is Some),
            },
    {
        match self.get_file(canonical) {
            Some(file) => match &file.file {
                Some(file) => Some(file),
                None => None,
            },
            None => None,
        }
    }

    /// What there is to say of the thing that a reference in a file means.
    pub fn document_reference(
        &self,
        path: FileId,
        reference: &Reference,
        ctx: &ReferenceContext<'_>,
    ) -> (r: Option<String>)
        requires
            self@.analysis_of(path) matches Some(context) ==> context.reference_start_known(
                reference@,
                *ctx,
            ),
        ensures
            match r {
                Some(text) => self@.analysis_of(path) matches Some(context)
                    && context.referred_text(reference@, *ctx) == Some(text@),
                None => !(self@.analysis_of(path) matches Some(context) && context.referred_text(
                    reference@,
                    *ctx,
                ) is Some),
            },
    {
        match self.get_analysis(path) {
            Some(context) => context.get_referred(reference, ctx),
            None => None,
        }
    }

    /// Where the thing stands that a reference in a file means.
    pub fn get_node_position(
        &self,
        path: FileId,
        reference: &Reference,
        ctx: &ReferenceContext<'_>,
    ) -> (r: Option<(Span, FileId)>)
        requires
            self@.analysis_of(path) matches Some(context) ==> context.reference_start_known(
                reference@,
                *ctx,
            ),
        ensures
            r == match self@.analysis_of(path) {
                Some(context) => context.position_of(reference@, *ctx),
                None => None,
            },
    {
        match self.get_analysis(path) {
            Some(context) => context.get_position(reference, ctx),
            None => None,
        }
    }
}

} // verus!
