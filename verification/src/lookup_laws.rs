//! How the questions that can be put to a project, to a search and to a kind of finding hang
//! together.
use crate::ast::{DtsFile, Reference};
use crate::context::{AnalysisContext, ReferenceContext};
use crate::data::{FileId, IoError, ParserConfig, Span};
use crate::diagnostics::Diagnostic;
use crate::error_codes::{lemma_code_names_differ, ErrorCode, SeverityMap};
use crate::loader::{Candidate, DefaultIncludeLoader};
use crate::project::{
    ancestor, ends_after, lemma_nothing_behind_end, lemma_root_at_end, lists_all, referred_view,
    root_of, AnalysisStatus, Project, ProjectFile, ProjectFileView,
};
use crate::project_laws::{lemma_ancestor_of_parent, lemma_root_has_no_parent};
use crate::server::invalid_url_message;
use vstd::prelude::*;

verus! {

/// A file that is in a project can be asked for, is listed, and once only; no other file is.
pub proof fn lemma_file_is_found(
    project: &Project,
    path: FileId,
    contained: bool,
    found: Option<&ProjectFile>,
    nothing: Option<&ProjectFile>,
    listed: Vec<FileId>,
)
    requires
        call_ensures(Project::contains_file, (project, path), contained),
        call_ensures(Project::get_file, (project, Some(path)), found),
        call_ensures(Project::get_file, (project, None), nothing),
        call_ensures(Project::files, (project,), listed),
    ensures
        contained <==> found is Some,
        contained <==> exists|i: int| 0 <= i < listed@.len() && #[trigger] listed@[i] == path,
        forall|i: int, j: int|
            0 <= i < j < listed@.len() ==> #[trigger] listed@[i] != #[trigger] listed@[j],
        nothing is None,
{
    assert(listed@.contains(path) == contained);
}

/// Each file of a project is among its files once.
pub proof fn lemma_each_file_is_listed(project: &Project, r: Vec<&ProjectFile>)
    requires
        call_ensures(Project::project_files, (project,), r),
    ensures
        exists|paths: Seq<FileId>|
            {
                &&& #[trigger] paths.len() == r@.len()
                &&& paths.no_duplicates()
                &&& forall|path: FileId| #[trigger]
                    paths.contains(path) <==> project@.files.contains_key(path)
                &&& forall|i: int|
                    0 <= i < paths.len() ==> (#[trigger] r@[i])@ == project@.files[paths[i]]
            },
{
    let files = project@.files;
    let paths = choose|paths: Seq<FileId>|
        #![trigger lists_all(paths, files)]
        lists_all(paths, files) && r@.len() == paths.len() && forall|i: int|
            0 <= i < paths.len() ==> (#[trigger] r@[i])@ == files[paths[i]];
    assert(lists_all(paths, files));
    assert forall|path: FileId| #[trigger] paths.contains(path) <==> files.contains_key(path) by {
        assert(paths.to_set().contains(path) == files.dom().contains(path));
    }
}

/// What was read of a file is what the file holds. What is to be found for its analysis is
/// asked of a file exactly if it was read, by the path that it was read from.
pub proof fn lemma_parsed_file_is_found(
    project: &Project,
    path: FileId,
    found: Option<&ProjectFile>,
    root: Option<&DtsFile>,
    requests: Option<(FileId, Vec<String>)>,
)
    requires
        call_ensures(Project::get_file, (project, Some(path)), found),
        call_ensures(Project::get_root, (project, Some(path)), root),
        call_ensures(Project::requests_of, (project, path), requests),
    ensures
        match root {
            Some(root) => (found matches Some(file) && file@.file == Some(*root)) && (
            requests matches Some((source, _)) && source == root.source),
            None => requests is None && (found matches Some(file) ==> file@.file is None),
        },
{
}

/// How a project is to be read is how it was set, and nothing else of it changes.
pub proof fn lemma_config_is_set(
    project: &mut Project,
    config: ParserConfig,
    changed: &Project,
    r: ParserConfig,
)
    requires
        call_ensures(Project::set_parser_config, (project, config), ()),
        changed@ == final(project)@,
        call_ensures(Project::parser_config, (changed,), r),
    ensures
        r == config,
        final(project)@.files == old(project)@.files,
        final(project)@.root_file == old(project)@.root_file,
{
}

/// A file whose findings are cleared lists none and has no errors. All else of it stays.
pub proof fn lemma_findings_are_cleared(
    file: &mut ProjectFile,
    cleared: &ProjectFile,
    listed: Vec<&Diagnostic>,
    severities: &SeverityMap,
    errors: bool,
)
    requires
        call_ensures(ProjectFile::clear_diagnostics, (file,), ()),
        cleared@ == final(file)@,
        call_ensures(ProjectFile::diagnostics, (cleared,), listed),
        call_ensures(ProjectFile::has_errors, (cleared, severities), errors),
    ensures
        listed@.len() == 0,
        !errors,
        final(file)@.parent == old(file)@.parent,
        final(file)@.includes == old(file)@.includes,
        final(file)@.file == old(file)@.file,
        final(file)@.file_type == old(file)@.file_type,
        final(file)@.source == old(file)@.source,
        final(file)@.status == old(file)@.status,
{
    assert(referred_view(listed@).len() == listed@.len());
}

/// What a reference means is asked of what is known of the file, and of nothing else.
pub proof fn lemma_reference_is_asked(
    project: &Project,
    path: FileId,
    reference: &Reference,
    ctx: &ReferenceContext<'_>,
    known: Option<&AnalysisContext>,
    text: Option<String>,
    place: Option<(Span, FileId)>,
    known_text: Option<String>,
    known_place: Option<(Span, FileId)>,
)
    requires
        call_ensures(Project::get_analysis, (project, path), known),
        call_ensures(Project::document_reference, (project, path, reference, ctx), text),
        call_ensures(Project::get_node_position, (project, path, reference, ctx), place),
        known matches Some(context) ==> call_ensures(
            AnalysisContext::get_referred,
            (context, reference, ctx),
            known_text,
        ) && call_ensures(AnalysisContext::get_position, (context, reference, ctx), known_place),
    ensures
        match known {
            Some(_) => place == known_place && match (text, known_text) {
                (Some(text), Some(known_text)) => text@ == known_text@,
                (None, None) => true,
                _ => false,
            },
            None => place is None && text is None,
        },
{
}

/// From a file and from its parent, parents lead to the same root.
proof fn lemma_root_of_parent(files: Map<FileId, ProjectFileView>, file: FileId, parent: FileId)
    requires
        files.contains_key(file),
        files[file].parent == Some(parent),
    ensures
        root_of(files, file) == root_of(files, parent),
{
    if exists|steps: nat| ends_after(files, file, steps) {
        let steps = choose|steps: nat| ends_after(files, file, steps);
        assert(ancestor(files, file, 0) == Some(file));
        lemma_root_at_end(files, file, steps);
        lemma_ancestor_of_parent(files, file, parent, (steps - 1) as nat);
        assert(ends_after(files, parent, (steps - 1) as nat));
        lemma_root_at_end(files, parent, (steps - 1) as nat);
    } else if exists|steps: nat| ends_after(files, parent, steps) {
        let steps = choose|steps: nat| ends_after(files, parent, steps);
        lemma_ancestor_of_parent(files, file, parent, steps);
        assert(ends_after(files, file, steps + 1));
    }
}

/// A file without a parent is its own root, and a file with a parent has its parent's root.
/// A file outside the project has none, and a root has no parent.
pub proof fn lemma_root_is_of_parent(
    project: &Project,
    file: FileId,
    r: Option<(FileId, &AnalysisStatus)>,
    of_parent: Option<(FileId, &AnalysisStatus)>,
)
    requires
        call_ensures(Project::analysis_root_for, (project, file), r),
        project@.files.contains_key(file) && project@.files[file].parent is Some ==> call_ensures(
            Project::analysis_root_for,
            (project, project@.files[file].parent->0),
            of_parent,
        ),
    ensures
        !project@.files.contains_key(file) ==> r is None,
        project@.files.contains_key(file) ==> match project@.files[file].parent {
            None => r matches Some((root, status)) && root == file && status@
                == project@.files[file].status,
            Some(_) => match (r, of_parent) {
                (Some((root, status)), Some((above, above_status))) => root == above && status@
                    == above_status@,
                (None, None) => true,
                _ => false,
            },
        },
        r matches Some((root, status)) ==> project@.files.contains_key(root)
            && project@.files[root].parent is None && status@ == project@.files[root].status,
{
    let files = project@.files;
    lemma_root_has_no_parent(files, file);
    if files.contains_key(file) {
        if let Some(parent) = files[file].parent {
            lemma_root_of_parent(files, file, parent);
        }
    } else if exists|steps: nat| ends_after(files, file, steps) {
        let steps = choose|steps: nat| ends_after(files, file, steps);
        assert(ancestor(files, file, 0) is None);
        if steps > 0 {
            lemma_nothing_behind_end(files, file, 0, steps);
        }
    }
}

/// A search goes on after a place where a file was not found, as long as there is another
/// place. It ends with the first place where the file was found, or at the last place, with
/// what came of it there.
pub proof fn lemma_search_goes_on(
    loader: &DefaultIncludeLoader,
    tried: usize,
    outcome: Result<FileId, IoError>,
    place: Candidate<'_>,
    r: Option<Result<FileId, IoError>>,
)
    requires
        call_ensures(DefaultIncludeLoader::candidate, (loader, tried), place),
        call_ensures(DefaultIncludeLoader::settle, (loader, tried, outcome), r),
    ensures
        outcome is Ok ==> r == Some(outcome),
        outcome is Err && place is Within ==> r is None,
        outcome is Err && place is Beside ==> r == Some(outcome),
{
}

/// A kind of finding is found again by its name and by its place. No other name and no
/// other place finds it.
pub proof fn lemma_kind_is_found_again(
    kind: ErrorCode,
    name: &'static str,
    place: u8,
    any_name: &str,
    any_place: u8,
    by_name: Option<ErrorCode>,
    by_place: Option<ErrorCode>,
)
    requires
        call_ensures(ErrorCode::as_str, (kind,), name),
        call_ensures(ErrorCode::index, (kind,), place),
        call_ensures(ErrorCode::from_name, (any_name,), by_name),
        call_ensures(ErrorCode::at, (any_place,), by_place),
    ensures
        by_name == Some(kind) <==> any_name@ == name@,
        by_place == Some(kind) <==> any_place == place,
{
    if let Some(found) = by_name {
        lemma_code_names_differ(found, kind);
    }
}

/// The message of a URL that is not the path of a file holds the URL.
pub proof fn lemma_message_names_url(url: &str, r: String, other: &str, message: String)
    requires
        call_ensures(invalid_url_message, (url,), r),
        call_ensures(invalid_url_message, (other,), message),
    ensures
        exists|front: Seq<char>, back: Seq<char>|
            r@ == #[trigger] (front + url@ + back) && message@ == front + other@ + back,
        r@ == message@ ==> url@ == other@,
{
    let front = "Url "@;
    let back = " is not a valid file path"@;
    assert(r@ == front + url@ + back);
    if r@ == message@ {
        let behind = front.len() as int;
        assert(url@.len() == other@.len());
        assert(r@.subrange(behind, behind + url@.len()) =~= url@);
        assert(message@.subrange(behind, behind + url@.len()) =~= other@);
    }
}

} // verus!
