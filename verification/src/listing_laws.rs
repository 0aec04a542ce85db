//! What a project tells of its files.
use crate::data::FileId;
use crate::diagnostics::{Diagnostic, DiagnosticView};
use crate::error_codes::{ErrorCode, Severity, SeverityMap};
use crate::finding_laws::{leads_back, lemma_leads_back_reaches};
use crate::graph::{reaches, walk_between};
use crate::import_guard::{closes_circle, CyclicDependency, ImportGuard};
use crate::loader::{Candidate, DefaultIncludeLoader};
use crate::place_laws::lemma_in_both;
use crate::project::{
    findings_of, include_edges, lists_all, referred_view, Project, ProjectFile, ProjectFileView,
};
use vstd::prelude::*;

verus! {

/// The findings that are listed for a file are those of the parser and then those of the
/// analysis; for a path that leads to no file there are none.
pub proof fn lemma_findings_listed(
    project: &Project,
    canonical: Option<FileId>,
    r: Vec<&Diagnostic>,
)
    requires
        call_ensures(Project::get_diagnostics, (project, canonical), r),
    ensures
        match canonical {
            Some(path) if project@.files.contains_key(path) => {
                let file = project@.files[path];
                &&& r@.len() == file.parser_diagnostics.len() + file.analysis_diagnostics.len()
                &&& forall|i: int|
                    0 <= i < file.parser_diagnostics.len() ==> (#[trigger] r@[i])@
                        == file.parser_diagnostics[i]
                &&& forall|i: int|
                    file.parser_diagnostics.len() <= i < r@.len() ==> (#[trigger] r@[i])@
                        == file.analysis_diagnostics[i - file.parser_diagnostics.len()]
            },
            _ => r@.len() == 0,
        },
{
    assert(referred_view(r@).len() == r@.len());
    assert forall|i: int| 0 <= i < r@.len() implies (#[trigger] r@[i])@ == referred_view(
        r@,
    )[i] by {}
}

/// Whether a finding is listed for a file, by the parser or by the analysis.
pub open spec fn is_listed(file: ProjectFileView, finding: DiagnosticView) -> bool {
    file.parser_diagnostics.contains(finding) || file.analysis_diagnostics.contains(finding)
}

proof fn lemma_findings_of(
    paths: Seq<FileId>,
    files: Map<FileId, ProjectFileView>,
    finding: DiagnosticView,
)
    ensures
        findings_of(paths, files).contains(finding) <==> exists|i: int|
            0 <= i < paths.len() && is_listed(files[#[trigger] paths[i]], finding),
    decreases paths.len(),
{
    if paths.len() > 0 {
        let fewer = paths.drop_last();
        let last = files[paths.last()];
        lemma_findings_of(fewer, files, finding);
        lemma_in_both(findings_of(fewer, files), last.diagnostics(), finding);
        lemma_in_both(last.parser_diagnostics, last.analysis_diagnostics, finding);
        assert(paths.last() == paths[paths.len() - 1]);
        if exists|i: int| 0 <= i < fewer.len() && is_listed(files[#[trigger] fewer[i]], finding) {
            let i = choose|i: int|
                0 <= i < fewer.len() && is_listed(files[#[trigger] fewer[i]], finding);
            assert(is_listed(files[paths[i]], finding));
        }
        if exists|i: int| 0 <= i < paths.len() && is_listed(files[#[trigger] paths[i]], finding) {
            let i = choose|i: int|
                0 <= i < paths.len() && is_listed(files[#[trigger] paths[i]], finding);
            if i < fewer.len() {
                assert(is_listed(files[fewer[i]], finding));
            }
        }
    }
}

/// All findings of a project are those that are listed for one of its files.
pub proof fn lemma_all_findings_listed(
    project: &Project,
    r: Vec<&Diagnostic>,
    finding: DiagnosticView,
)
    requires
        call_ensures(Project::all_diagnostics, (project,), r),
    ensures
        (exists|i: int| 0 <= i < r@.len() && (#[trigger] r@[i])@ == finding) <==> exists|
            file: FileId,
        | #[trigger]
            project@.files.contains_key(file) && is_listed(project@.files[file], finding),
{
    let files = project@.files;
    let paths = choose|paths: Seq<FileId>|
        lists_all(paths, files) && referred_view(r@) == #[trigger] findings_of(paths, files);
    lemma_findings_of(paths, files, finding);
    assert forall|i: int| 0 <= i < r@.len() implies (#[trigger] r@[i])@ == referred_view(
        r@,
    )[i] by {}
    assert(referred_view(r@).len() == r@.len());
    if exists|i: int| 0 <= i < r@.len() && (#[trigger] r@[i])@ == finding {
        let i = choose|i: int| 0 <= i < r@.len() && (#[trigger] r@[i])@ == finding;
        assert(referred_view(r@)[i] == finding);
        assert(findings_of(paths, files).contains(finding));
        let j = choose|j: int|
            0 <= j < paths.len() && is_listed(files[#[trigger] paths[j]], finding);
        assert(paths.to_set().contains(paths[j]));
        assert(files.contains_key(paths[j]));
    }
    if exists|file: FileId| #[trigger] files.contains_key(file) && is_listed(files[file], finding) {
        let file = choose|file: FileId| #[trigger]
            files.contains_key(file) && is_listed(files[file], finding);
        assert(files.dom().contains(file));
        assert(paths.to_set().contains(file));
        assert(paths.contains(file));
        let j = choose|j: int| 0 <= j < paths.len() && paths[j] == file;
        assert(is_listed(files[paths[j]], finding));
        let i = choose|i: int|
            0 <= i < referred_view(r@).len() && referred_view(r@)[i] == finding;
        assert(r@[i]@ == finding);
    }
}

/// A file has errors exactly if one of the findings that are listed for it is an error.
pub proof fn lemma_file_has_errors(file: &ProjectFile, severities: &SeverityMap, r: bool)
    requires
        call_ensures(ProjectFile::has_errors, (file, severities), r),
    ensures
        r <==> exists|finding: DiagnosticView| #[trigger]
            is_listed(file@, finding) && severities.severity(finding.kind) == Severity::Error,
{
    let all = file@.diagnostics();
    if r {
        let i = choose|i: int|
            0 <= i < all.len() && severities.severity((#[trigger] all[i]).kind)
                == Severity::Error;
        assert(all.contains(all[i]));
        lemma_in_both(file@.parser_diagnostics, file@.analysis_diagnostics, all[i]);
        assert(is_listed(file@, all[i]));
    }
    if exists|finding: DiagnosticView| #[trigger]
        is_listed(file@, finding) && severities.severity(finding.kind) == Severity::Error {
        let finding = choose|finding: DiagnosticView| #[trigger]
            is_listed(file@, finding) && severities.severity(finding.kind) == Severity::Error;
        lemma_in_both(file@.parser_diagnostics, file@.analysis_diagnostics, finding);
        let i = choose|i: int| 0 <= i < all.len() && all[i] == finding;
        assert(severities.severity(all[i].kind) == Severity::Error);
    }
}

/// Unless a project says otherwise, what is missing, misplaced or cannot be read is an error,
/// and what only breaks a rule of good writing is a warning.
pub proof fn lemma_default_severities(r: SeverityMap, code: ErrorCode)
    requires
        call_ensures(SeverityMap::default, (), r),
    ensures
        r.severity(code) == Severity::Warning <==> (code is NameTooLong
            || code is NonStringInCompatible || code is ExpectedU32 || code is ExpectedString
            || code is UnexpectedSize || code is UnexpectedFormat || code is DuplicateDirective
            || code is CustomWarning),
        r.severity(code) != Severity::Warning ==> r.severity(code) == Severity::Error,
{
}

/// Whether one file of a walk includes the next.
pub open spec fn is_inclusion(
    files: Map<FileId, ProjectFileView>,
    walk: Seq<FileId>,
    i: int,
) -> bool {
    files.contains_key(walk[i]) && files[walk[i]].includes.contains(walk[i + 1])
}

/// Whether a walk goes along inclusions from a file to another.
pub open spec fn walks_inclusions(
    files: Map<FileId, ProjectFileView>,
    walk: Seq<FileId>,
    from: FileId,
    to: FileId,
) -> bool {
    &&& walk.len() > 0
    &&& walk[0] == from
    &&& walk[walk.len() - 1] == to
    &&& forall|i: int| 0 <= i < walk.len() - 1 ==> #[trigger] is_inclusion(files, walk, i)
}

/// Whether a file includes another, at once or by way of other files, or is that file.
pub open spec fn brings_in(
    files: Map<FileId, ProjectFileView>,
    from: FileId,
    to: FileId,
) -> bool {
    exists|walk: Seq<FileId>| #[trigger] walks_inclusions(files, walk, from, to)
}

pub(crate) proof fn lemma_brings_in(files: Map<FileId, ProjectFileView>, from: FileId, to: FileId)
    ensures
        brings_in(files, from, to) == reaches(include_edges(files), from, to),
{
    let edges = include_edges(files);
    if reaches(edges, from, to) {
        let walk = choose|walk: Seq<FileId>| walk_between(edges, walk, from, to);
        assert forall|i: int| 0 <= i < walk.len() - 1 implies #[trigger] is_inclusion(
            files,
            walk,
            i,
        ) by {
            assert(edges.contains((walk[i], walk[i + 1])));
        }
        assert(walks_inclusions(files, walk, from, to));
    }
    if brings_in(files, from, to) {
        let walk = choose|walk: Seq<FileId>| #[trigger] walks_inclusions(files, walk, from, to);
        assert forall|i: int| 0 <= i < walk.len() - 1 implies edges.contains(
            (#[trigger] walk[i], walk[i + 1]),
        ) by {
            assert(is_inclusion(files, walk, i));
        }
        assert(walk_between(edges, walk, from, to));
    }
}

/// To make a file the root file is to forget it and all that it brings in, and nothing else.
pub proof fn lemma_new_root_is_forgotten(
    project: &mut Project,
    root: FileId,
    r: FileId,
    file: FileId,
)
    requires
        call_ensures(Project::set_root_file_and_reset, (project, root), r),
    ensures
        r == root,
        final(project)@.root_file == Some(root),
        final(project)@.files.contains_key(file) <==> old(project)@.files.contains_key(file)
            && !brings_in(old(project)@.files, root, file),
        final(project)@.files.contains_key(file) ==> final(project)@.files[file]
            == old(project)@.files[file],
        final(project)@.severities == old(project)@.severities,
        final(project)@.config == old(project)@.config,
{
    lemma_brings_in(old(project)@.files, root, file);
}

/// A reset forgets the root file, if there is one, and all that it brings in, and nothing
/// else; the root file stays the root file and is to be added again.
pub proof fn lemma_root_is_forgotten(project: &mut Project, r: Option<FileId>, file: FileId)
    requires
        call_ensures(Project::reset, (project,), r),
    ensures
        r == old(project)@.root_file,
        final(project)@.root_file == old(project)@.root_file,
        final(project)@.files.contains_key(file) <==> old(project)@.files.contains_key(file)
            && !(old(project)@.root_file matches Some(root) && brings_in(
            old(project)@.files,
            root,
            file,
        )),
        final(project)@.files.contains_key(file) ==> final(project)@.files[file]
            == old(project)@.files[file],
        final(project)@.severities == old(project)@.severities,
        final(project)@.config == old(project)@.config,
{
    if let Some(root) = old(project)@.root_file {
        lemma_brings_in(old(project)@.files, root, file);
    }
}

/// An import is refused exactly if the imported file leads back to one of the importers, and
/// a refused import changes nothing; any other is noted for each importer.
pub proof fn lemma_import_is_noted(
    guard: &mut ImportGuard,
    file: FileId,
    importers: &[FileId],
    r: Result<(), CyclicDependency>,
    from: FileId,
    to: FileId,
)
    requires
        call_ensures(ImportGuard::add, (guard, file, importers), r),
    ensures
        r is Err <==> exists|i: int|
            0 <= i < importers@.len() && leads_back(
                old(guard)@,
                file,
                #[trigger] importers@[i],
            ),
        final(guard)@.contains((from, to)) <==> old(guard)@.contains((from, to)) || (r is Ok && to
            == file && importers@.contains(from)),
{
    let edges = old(guard)@;
    if r is Err {
        let i = choose|i: int|
            0 <= i < importers@.len() && reaches(edges, file, #[trigger] importers@[i]);
        lemma_leads_back_reaches(edges, file, importers@[i]);
    }
    if exists|i: int|
        0 <= i < importers@.len() && leads_back(edges, file, #[trigger] importers@[i]) {
        let i = choose|i: int|
            0 <= i < importers@.len() && leads_back(edges, file, #[trigger] importers@[i]);
        lemma_leads_back_reaches(edges, file, importers@[i]);
        assert(closes_circle(edges, file, importers@));
    }
}

/// A file is searched for in each directory, one after the other, and then beside the file in
/// which it is named.
pub proof fn lemma_search_order(
    loader: &mut DefaultIncludeLoader,
    paths: Vec<String>,
    tried: usize,
    r: Candidate<'_>,
)
    requires
        call_ensures(DefaultIncludeLoader::set_include_paths, (loader, paths), ()),
        call_ensures(DefaultIncludeLoader::candidate, (final(loader), tried), r),
    ensures
        tried < paths@.len() ==> (r matches Candidate::Within(path) && path@
            == paths@[tried as int]@),
        tried >= paths@.len() ==> r is Beside,
{
    assert(crate::text::texts(paths@).len() == paths@.len());
    if tried < paths@.len() {
        assert(crate::text::texts(paths@)[tried as int] == paths@[tried as int]@);
    }
}

} // verus!
