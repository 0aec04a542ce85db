//! What an analysis of all files of a device tree reports in each of them.
use crate::analysis::{file_start, Progress};
use crate::ast::{AnyDirective, DtsFile, Include, NodeNameView, Primary};
use crate::context_laws::{
    has_label_at, has_node_at, lemma_includes_stay, lemma_label_known, lemma_node_known,
};
use crate::data::FileId;
use crate::diagnostics::DiagnosticView;
use crate::error_codes::ErrorCode;
use crate::finding_laws::{
    about_inclusion, after_some, is_called_for, is_wrong_inclusion, leads_back, lemma_found,
    lists_error, named_before_element,
};
use crate::graph::{lemma_reaches_itself, lemma_reaches_next, reaches};
use crate::listing_laws::{brings_in, lemma_brings_in};
use crate::loader::LoadOutcome;
use crate::project::{
    analysis_order, include_edges, lemma_files_finite, lemma_plan_parsed, lemma_unseen_one_less,
    lemma_unseen_shrinks, root_of, unseen, visit, visit_all, PlannedFile, Project,
    ProjectFileView, ProjectView, StatusView, TreeState, Walk,
};
use crate::project_laws::{
    extends, includes_parsed, is_planned, lemma_analyzed_file, lemma_plan_is_complete,
    lemma_plan_order, lemma_stays_planned, lemma_visit_all_thorough, parent_later,
};
use vstd::prelude::*;

verus! {

/// The analysis of the files of a root, after some of the files that are planned.
pub open spec fn tree_after(
    project: ProjectView,
    root: FileId,
    loads: Seq<Vec<LoadOutcome>>,
    count: int,
) -> TreeState {
    project.tree_start(root).after_files(analysis_order(project.files, root).take(count), loads)
}

/// The file that is planned at `k`, as it was parsed.
pub open spec fn planned_file(project: ProjectView, root: FileId, k: int) -> DtsFile {
    project.files[analysis_order(project.files, root)[k].file].file->0
}

/// What was read of a file stays as it is: its text, its kind, what was parsed of it, what
/// the parser found and what it includes.
pub open spec fn same_reading(now: ProjectFileView, before: ProjectFileView) -> bool {
    &&& now.source == before.source
    &&& now.file_type == before.file_type
    &&& now.file == before.file
    &&& now.parser_diagnostics == before.parser_diagnostics
    &&& now.includes == before.includes
}

/// Analyses of other files leave a file as it is.
proof fn lemma_others_leave(
    start: TreeState,
    order: Seq<PlannedFile>,
    loads: Seq<Vec<LoadOutcome>>,
    k: int,
    file: FileId,
)
    requires
        0 <= k <= order.len(),
        forall|i: int| k <= i < order.len() ==> (#[trigger] order[i]).file != file,
    ensures
        ({
            let now = start.after_files(order, loads).project;
            let before = start.after_files(order.take(k), loads).project;
            &&& now.files.contains_key(file) == before.files.contains_key(file)
            &&& now.files[file] == before.files[file]
            &&& now.severities == before.severities
        }),
    decreases order.len(),
{
    if k < order.len() {
        let fewer = order.drop_last();
        assert(fewer.take(k) =~= order.take(k));
        assert forall|i: int| k <= i < fewer.len() implies (#[trigger] fewer[i]).file != file by {
            assert(order[i].file != file);
        }
        lemma_others_leave(start, fewer, loads, k, file);
        assert(order[order.len() - 1].file != file);
    } else {
        assert(order.take(k) =~= order);
    }
}

/// Analyses keep which files there are, what was read of them, and how serious findings
/// are.
proof fn lemma_readings_stay(
    start: TreeState,
    order: Seq<PlannedFile>,
    loads: Seq<Vec<LoadOutcome>>,
    file: FileId,
)
    ensures
        ({
            let now = start.after_files(order, loads).project;
            &&& start.project.files.contains_key(file) ==> now.files.contains_key(file)
            &&& same_reading(now.files[file], start.project.files[file])
            &&& now.severities == start.project.severities
        }),
    decreases order.len(),
{
    if order.len() > 0 {
        lemma_readings_stay(start, order.drop_last(), loads, file);
        lemma_readings_stay(start, order.drop_last(), loads, order.last().file);
    }
}

/// After an analysis of the tree of a file, each file of the plan has the parent that the
/// plan says, and whatever is called for by something in it is found in it, and nothing
/// else. What was read of the files stays, and so do all files that are not in the plan,
/// except that the root holds what is known of the device tree.
pub proof fn lemma_tree_findings(
    project: &mut Project,
    element: FileId,
    loads: &Vec<Vec<LoadOutcome>>,
    root: FileId,
    k: int,
    finding: DiagnosticView,
)
    requires
        call_ensures(Project::analyze_tree_for, (project, element, loads), ()),
        includes_parsed(old(project)@.files),
        root_of(old(project)@.files, element) == Some(root),
        0 <= k < analysis_order(old(project)@.files, root).len(),
    ensures
        ({
            let planned = analysis_order(old(project)@.files, root)[k];
            let now = final(project)@.files[planned.file];
            let before = tree_after(old(project)@, root, loads@, k);
            &&& same_reading(now, old(project)@.files[planned.file])
            &&& now.parent == planned.parent
            &&& if planned.file == root {
                now.status is Root
            } else {
                now.status is Child
            }
            &&& now.analysis_diagnostics.contains(finding) <==> is_called_for(
                before.known,
                tree_after(old(project)@, root, loads@, k + 1).known.context,
                &planned_file(old(project)@, root, k),
                now.file_type,
                before.project,
                loads@[k]@,
                finding,
            )
        }),
{
    let order = analysis_order(old(project)@.files, root);
    let start = old(project)@.tree_start(root);
    let before = tree_after(old(project)@, root, loads@, k);
    lemma_plan_order(old(project)@.files, root);
    lemma_analyzed_file(start, order, loads@, k);
    lemma_readings_stay(start, order, loads@, order[k].file);
    lemma_readings_stay(start, order.take(k), loads@, order[k].file);
    assert(order.take(k + 1).drop_last() =~= order.take(k));
    lemma_found(
        before.known,
        &planned_file(old(project)@, root, k),
        old(project)@.files[order[k].file].file_type,
        before.project,
        loads@[k]@,
        finding,
    );
}

/// An analysis of the tree of a file leaves all files as they are that are not in the plan,
/// except that the root holds what is known of the device tree, and takes in no file. A file
/// without a root leaves the project as it is.
pub proof fn lemma_tree_leaves_others(
    project: &mut Project,
    element: FileId,
    loads: &Vec<Vec<LoadOutcome>>,
    file: FileId,
)
    requires
        call_ensures(Project::analyze_tree_for, (project, element, loads), ()),
    ensures
        final(project)@.severities == old(project)@.severities,
        root_of(old(project)@.files, element) is None ==> final(project)@ == old(project)@,
        root_of(old(project)@.files, element) matches Some(root) ==> (forall|k: int|
            0 <= k < analysis_order(old(project)@.files, root).len() ==> (
            #[trigger] analysis_order(old(project)@.files, root)[k]).file != file) && file != root
            ==> {
            &&& final(project)@.files.contains_key(file) == old(project)@.files.contains_key(file)
            &&& final(project)@.files[file] == old(project)@.files[file]
        },
        root_of(old(project)@.files, element) matches Some(root)
            ==> final(project)@.files[root].status is Root,
{
    if let Some(root) = root_of(old(project)@.files, element) {
        let order = analysis_order(old(project)@.files, root);
        let start = old(project)@.tree_start(root);
        lemma_readings_stay(start, order, loads@, file);
        if forall|k: int| 0 <= k < order.len() ==> (#[trigger] order[k]).file != file {
            lemma_others_leave(start, order, loads@, 0, file);
            assert(order.take(0) =~= Seq::empty());
        }
    }
}

/// Whether no other inclusion of a file stands where one does.
pub open spec fn stands_alone(primaries: Seq<Primary>, m: int, inclusion: Include) -> bool {
    forall|other: int|
        0 <= other < primaries.len() && other != m ==> !((
        #[trigger] primaries[other]) matches Primary::Directive(AnyDirective::Include(also))
            && about_inclusion(also, ErrorCode::IOError, Seq::empty()) == about_inclusion(
            inclusion,
            ErrorCode::IOError,
            Seq::empty(),
        ))
}

/// After an analysis of the tree of a file: an inclusion of a file that was found and does
/// not lead back is reported to have errors exactly if an error is listed for the included
/// file, by the parser or by the analysis, whether or not it could be parsed. The included
/// file is one that has been analyzed before the including one, or is not analyzed.
pub proof fn lemma_errors_in_inclusion(
    project: &mut Project,
    element: FileId,
    loads: &Vec<Vec<LoadOutcome>>,
    root: FileId,
    k: int,
    m: int,
    inclusion: Include,
    included: FileId,
)
    requires
        call_ensures(Project::analyze_tree_for, (project, element, loads), ()),
        includes_parsed(old(project)@.files),
        root_of(old(project)@.files, element) == Some(root),
        0 <= k < analysis_order(old(project)@.files, root).len(),
        forall|later: int|
            k <= later < analysis_order(old(project)@.files, root).len() ==> (
            #[trigger] analysis_order(old(project)@.files, root)[later]).file != included,
        ({
            let elements = planned_file(old(project)@, root, k).elements@;
            let source = planned_file(old(project)@, root, k).source;
            let before = file_start(
                tree_after(old(project)@, root, loads@, k).known,
                source,
                old(project)@.files[analysis_order(old(project)@.files, root)[k].file].file_type,
                tree_after(old(project)@, root, loads@, k).project,
                loads@[k]@,
            );
            &&& 0 <= m < elements.len()
            &&& elements[m] == Primary::Directive(AnyDirective::Include(inclusion))
            &&& stands_alone(elements, m, inclusion)
            &&& loads@[k]@[named_before_element(elements, m)] matches Ok(loaded)
            &&& loaded.canonical == Some(included)
            &&& !leads_back(after_some(before, elements, m).known.imports, loaded.path, source)
        }),
    ensures
        ({
            let planned = analysis_order(old(project)@.files, root)[k];
            final(project)@.files[planned.file].analysis_diagnostics.contains(
                about_inclusion(
                    inclusion,
                    ErrorCode::ErrorsInInclude,
                    "Included file contains errors"@,
                ),
            ) <==> lists_error(final(project)@, included)
        }),
{
    let order = analysis_order(old(project)@.files, root);
    let start = old(project)@.tree_start(root);
    let before = tree_after(old(project)@, root, loads@, k);
    let file = planned_file(old(project)@, root, k);
    let elements = file.elements@;
    let finding = about_inclusion(
        inclusion,
        ErrorCode::ErrorsInInclude,
        "Included file contains errors"@,
    );
    lemma_tree_findings(project, element, loads, root, k, finding);
    lemma_others_leave(start, order, loads@, k, included);
    assert(lists_error(before.project, included) == lists_error(final(project)@, included));
    let first = file_start(
        before.known,
        file.source,
        old(project)@.files[order[k].file].file_type,
        before.project,
        loads@[k]@,
    );
    if lists_error(final(project)@, included) {
        assert(is_wrong_inclusion(
            elements,
            file.source,
            before.project,
            loads@[k]@,
            after_some(first, elements, m).known.imports,
            finding,
            m,
        ));
    }
    if final(project)@.files[order[k].file].analysis_diagnostics.contains(finding) {
        let n = choose|n: int| #[trigger]
            is_wrong_inclusion(
                elements,
                file.source,
                before.project,
                loads@[k]@,
                after_some(first, elements, n).known.imports,
                finding,
                n,
            );
        assert(n == m);
    }
}

/// Whether a file is in a project and was parsed.
pub open spec fn is_parsed(files: Map<FileId, ProjectFileView>, file: FileId) -> bool {
    files.contains_key(file) && files[file].file is Some
}

/// Whether a file is planned before the place `m` of a plan.
pub open spec fn is_planned_before(order: Seq<PlannedFile>, m: int, file: FileId) -> bool {
    exists|k: int| 0 <= k < m && k < order.len() && (#[trigger] order[k]).file == file
}

/// Whether each parsed file that the one at the place `m` of a plan includes is planned before
/// it, or leads back to it.
pub open spec fn comes_after_included(
    files: Map<FileId, ProjectFileView>,
    order: Seq<PlannedFile>,
    m: int,
) -> bool {
    forall|next: FileId| #[trigger]
        files[order[m].file].includes.contains(next) && is_parsed(files, next)
            ==> is_planned_before(order, m, next) || reaches(
            include_edges(files),
            next,
            order[m].file,
        )
}

/// Whether each parsed file that a walk has come to is planned, or is one of those that the
/// walk is still in.
spec fn is_settled(files: Map<FileId, ProjectFileView>, walk: Walk, inside: Set<FileId>) -> bool {
    forall|file: FileId| #[trigger]
        walk.seen.contains(file) && is_parsed(files, file) ==> is_planned(walk.order, file)
            || inside.contains(file)
}

proof fn lemma_comes_after_stays(
    files: Map<FileId, ProjectFileView>,
    order: Seq<PlannedFile>,
    start: Seq<PlannedFile>,
    m: int,
)
    requires
        extends(order, start),
        0 <= m < start.len(),
        comes_after_included(files, start, m),
    ensures
        comes_after_included(files, order, m),
{
    assert(order[m] == start[m]);
    assert forall|next: FileId| #[trigger]
        files[order[m].file].includes.contains(next) && is_parsed(
            files,
            next,
        ) implies is_planned_before(order, m, next) || reaches(
        include_edges(files),
        next,
        order[m].file,
    ) by {
        if is_planned_before(start, m, next) {
            let k = choose|k: int|
                0 <= k < m && k < start.len() && (#[trigger] start[k]).file == next;
            assert(order[k] == start[k]);
        }
    }
}

proof fn lemma_visit_comes_after(
    files: Map<FileId, ProjectFileView>,
    depth: nat,
    file: FileId,
    parent: Option<FileId>,
    walk: Walk,
    inside: Set<FileId>,
)
    requires
        files.dom().finite(),
        depth >= unseen(files, walk.seen),
        is_settled(files, walk, inside),
        forall|outer: FileId| #[trigger]
            inside.contains(outer) ==> reaches(include_edges(files), outer, file),
    ensures
        ({
            let after = visit(files, depth, file, parent, walk);
            &&& is_settled(files, after, inside)
            &&& extends(after.order, walk.order)
            &&& forall|m: int|
                walk.order.len() <= m < after.order.len() ==> #[trigger] comes_after_included(
                    files,
                    after.order,
                    m,
                )
        }),
    decreases depth, 0nat,
{
    let after = visit(files, depth, file, parent, walk);
    if !walk.seen.contains(file) && files.contains_key(file) {
        let marked = Walk { seen: walk.seen.insert(file), ..walk };
        let includes = files[file].includes;
        let deeper = inside.insert(file);
        lemma_unseen_one_less(files, walk.seen, file);
        lemma_reaches_itself(include_edges(files), file);
        assert(is_settled(files, marked, deeper));
        lemma_visit_all_comes_after(files, (depth - 1) as nat, includes, file, marked, deeper);
        lemma_visit_all_thorough(files, (depth - 1) as nat, includes, file, marked);
        let below = visit_all(files, (depth - 1) as nat, includes, file, marked);
        if files[file].file is Some {
            let last = below.order.len() as int;
            assert(extends(after.order, below.order));
            assert(after.order[last].file == file);
            assert forall|next: FileId| #[trigger]
                files[file].includes.contains(next) && is_parsed(
                    files,
                    next,
                ) implies is_planned_before(after.order, last, next) || reaches(
                include_edges(files),
                next,
                file,
            ) by {
                assert(below.seen.contains(next));
                if is_planned(below.order, next) {
                    let k = choose|k: int|
                        0 <= k < below.order.len() && (#[trigger] below.order[k]).file == next;
                    assert(after.order[k] == below.order[k]);
                } else {
                    assert(deeper.contains(next));
                }
            }
            assert(comes_after_included(files, after.order, last));
            assert forall|m: int|
                walk.order.len() <= m < after.order.len() implies #[trigger] comes_after_included(
                files,
                after.order,
                m,
            ) by {
                if m < last {
                    assert(comes_after_included(files, below.order, m));
                    lemma_comes_after_stays(files, after.order, below.order, m);
                }
            }
            assert forall|f: FileId| #[trigger]
                after.seen.contains(f) && is_parsed(files, f) implies is_planned(after.order, f)
                || inside.contains(f) by {
                if f != file && is_planned(below.order, f) {
                    lemma_stays_planned(after.order, below.order, f);
                }
            }
        }
    }
}

proof fn lemma_visit_all_comes_after(
    files: Map<FileId, ProjectFileView>,
    depth: nat,
    includes: Seq<FileId>,
    parent: FileId,
    walk: Walk,
    inside: Set<FileId>,
)
    requires
        files.dom().finite(),
        depth >= unseen(files, walk.seen),
        is_settled(files, walk, inside),
        files.contains_key(parent),
        forall|i: int|
            0 <= i < includes.len() ==> files[parent].includes.contains(#[trigger] includes[i]),
        forall|outer: FileId| #[trigger]
            inside.contains(outer) ==> reaches(include_edges(files), outer, parent),
    ensures
        ({
            let after = visit_all(files, depth, includes, parent, walk);
            &&& is_settled(files, after, inside)
            &&& extends(after.order, walk.order)
            &&& forall|m: int|
                walk.order.len() <= m < after.order.len() ==> #[trigger] comes_after_included(
                    files,
                    after.order,
                    m,
                )
        }),
    decreases depth, includes.len() + 1,
{
    if includes.len() > 0 {
        let fewer = includes.drop_last();
        let between = visit_all(files, depth, fewer, parent, walk);
        let after = visit_all(files, depth, includes, parent, walk);
        assert forall|i: int| 0 <= i < fewer.len() implies files[parent].includes.contains(
            #[trigger] fewer[i],
        ) by {
            assert(fewer[i] == includes[i]);
        }
        lemma_visit_all_comes_after(files, depth, fewer, parent, walk, inside);
        lemma_visit_all_thorough(files, depth, fewer, parent, walk);
        lemma_unseen_shrinks(files, walk.seen, between.seen);
        let next = includes.last();
        assert(includes[includes.len() - 1] == next);
        assert(include_edges(files).contains((parent, next)));
        assert forall|outer: FileId| #[trigger] inside.contains(outer) implies reaches(
            include_edges(files),
            outer,
            next,
        ) by {
            lemma_reaches_next(include_edges(files), outer, parent, next);
        }
        lemma_visit_comes_after(files, depth, next, Some(parent), between, inside);
        assert forall|m: int|
            walk.order.len() <= m < after.order.len() implies #[trigger] comes_after_included(
            files,
            after.order,
            m,
        ) by {
            if m < between.order.len() {
                assert(comes_after_included(files, between.order, m));
                lemma_comes_after_stays(files, after.order, between.order, m);
            }
        }
        assert forall|i: int| 0 <= i < walk.order.len() implies #[trigger] after.order[i]
            == walk.order[i] by {
            assert(between.order[i] == walk.order[i]);
        }
    }
}

/// In a plan, each parsed file that a file includes comes before it, unless it leads back to
/// the file.
pub proof fn lemma_included_comes_before(
    project: &Project,
    element: FileId,
    r: Vec<PlannedFile>,
    m: int,
    included: FileId,
)
    requires
        call_ensures(Project::analysis_plan, (project, element), r),
        0 <= m < r@.len(),
        project@.files[r@[m].file].includes.contains(included),
        is_parsed(project@.files, included),
        !brings_in(project@.files, included, r@[m].file),
    ensures
        exists|k: int| 0 <= k < m && (#[trigger] r@[k]).file == included,
{
    let files = project@.files;
    let root = root_of(files, element)->0;
    let start = Walk { seen: Set::empty(), order: Seq::empty() };
    lemma_files_finite(project);
    assert(files.dom().difference(Set::empty()) =~= files.dom());
    lemma_visit_comes_after(files, files.dom().len(), root, None, start, Set::empty());
    lemma_brings_in(files, included, r@[m].file);
    assert(comes_after_included(files, r@, m));
}

/// A plan holds each file once, ends with the root, and holds a parsed file exactly if the
/// root brings it in. Each file but the root is included by its parent, which comes later.
pub proof fn lemma_plan_holds_tree(
    project: &Project,
    element: FileId,
    r: Vec<PlannedFile>,
    root: FileId,
    file: FileId,
)
    requires
        call_ensures(Project::analysis_plan, (project, element), r),
        includes_parsed(project@.files),
        root_of(project@.files, element) == Some(root),
    ensures
        forall|i: int, j: int|
            0 <= i < j < r@.len() ==> (#[trigger] r@[i]).file != (#[trigger] r@[j]).file,
        is_planned(r@, file) <==> is_parsed(project@.files, file) && brings_in(
            project@.files,
            root,
            file,
        ),
        forall|k: int|
            0 <= k < r@.len() ==> (#[trigger] r@[k]) == (PlannedFile { file: root, parent: None })
                || parent_later(r@, k),
        forall|k: int| 0 <= k < r@.len() ==> #[trigger] has_own_parent(project@.files, r@, k),
{
    let files = project@.files;
    lemma_files_finite(project);
    lemma_plan_order(files, root);
    lemma_brings_in(files, root, file);
    lemma_plan_parsed(files, root);
    if is_parsed(files, file) && brings_in(files, root, file) {
        lemma_plan_is_complete(files, root, file);
    }
    let start = Walk { seen: Set::empty(), order: Seq::empty() };
    lemma_reaches_itself(include_edges(files), root);
    lemma_visit_parents(files, files.dom().len(), root, None, start, root);
    if is_planned(r@, file) {
        let k = choose|k: int| 0 <= k < r@.len() && (#[trigger] r@[k]).file == file;
        assert(has_own_parent(files, r@, k));
        assert(is_led_to(files, r@, k, root));
    }
}

/// Whether the file at a place of a plan is included by its parent, if it has one.
pub open spec fn has_own_parent(
    files: Map<FileId, ProjectFileView>,
    order: Seq<PlannedFile>,
    k: int,
) -> bool {
    order[k].parent matches Some(parent) ==> files.contains_key(parent)
        && files[parent].includes.contains(order[k].file)
}

/// Whether the root leads to the file at a place of a plan.
spec fn is_led_to(
    files: Map<FileId, ProjectFileView>,
    order: Seq<PlannedFile>,
    k: int,
    root: FileId,
) -> bool {
    reaches(include_edges(files), root, order[k].file)
}

proof fn lemma_visit_parents(
    files: Map<FileId, ProjectFileView>,
    depth: nat,
    file: FileId,
    parent: Option<FileId>,
    walk: Walk,
    root: FileId,
)
    requires
        reaches(include_edges(files), root, file),
        parent matches Some(parent) ==> files.contains_key(parent)
            && files[parent].includes.contains(file),
    ensures
        ({
            let after = visit(files, depth, file, parent, walk);
            &&& extends(after.order, walk.order)
            &&& forall|k: int|
                walk.order.len() <= k < after.order.len() ==> #[trigger] has_own_parent(
                    files,
                    after.order,
                    k,
                )
            &&& forall|k: int|
                walk.order.len() <= k < after.order.len() ==> #[trigger] is_led_to(
                    files,
                    after.order,
                    k,
                    root,
                )
        }),
    decreases depth, 0nat,
{
    if !walk.seen.contains(file) && files.contains_key(file) && depth > 0 {
        let marked = Walk { seen: walk.seen.insert(file), ..walk };
        let includes = files[file].includes;
        let below = visit_all(files, (depth - 1) as nat, includes, file, marked);
        let after = visit(files, depth, file, parent, walk);
        lemma_visit_all_parents(files, (depth - 1) as nat, includes, file, marked, root);
        assert forall|k: int|
            walk.order.len() <= k < after.order.len() implies #[trigger] has_own_parent(
            files,
            after.order,
            k,
        ) && is_led_to(files, after.order, k, root) by {
            if k < below.order.len() {
                assert(after.order[k] == below.order[k]);
                assert(has_own_parent(files, below.order, k));
                assert(is_led_to(files, below.order, k, root));
            }
        }
        assert forall|k: int|
            walk.order.len() <= k < after.order.len() implies #[trigger] is_led_to(
            files,
            after.order,
            k,
            root,
        ) by {
            assert(has_own_parent(files, after.order, k));
        }
    }
}

proof fn lemma_visit_all_parents(
    files: Map<FileId, ProjectFileView>,
    depth: nat,
    includes: Seq<FileId>,
    parent: FileId,
    walk: Walk,
    root: FileId,
)
    requires
        reaches(include_edges(files), root, parent),
        files.contains_key(parent),
        forall|i: int|
            0 <= i < includes.len() ==> files[parent].includes.contains(#[trigger] includes[i]),
    ensures
        ({
            let after = visit_all(files, depth, includes, parent, walk);
            &&& extends(after.order, walk.order)
            &&& forall|k: int|
                walk.order.len() <= k < after.order.len() ==> #[trigger] has_own_parent(
                    files,
                    after.order,
                    k,
                )
            &&& forall|k: int|
                walk.order.len() <= k < after.order.len() ==> #[trigger] is_led_to(
                    files,
                    after.order,
                    k,
                    root,
                )
        }),
    decreases depth, includes.len() + 1,
{
    if includes.len() > 0 {
        let fewer = includes.drop_last();
        let between = visit_all(files, depth, fewer, parent, walk);
        let after = visit_all(files, depth, includes, parent, walk);
        assert forall|i: int| 0 <= i < fewer.len() implies files[parent].includes.contains(
            #[trigger] fewer[i],
        ) by {
            assert(fewer[i] == includes[i]);
        }
        lemma_visit_all_parents(files, depth, fewer, parent, walk, root);
        let next = includes.last();
        assert(includes[includes.len() - 1] == next);
        assert(include_edges(files).contains((parent, next)));
        lemma_reaches_next(include_edges(files), root, parent, next);
        lemma_visit_parents(files, depth, next, Some(parent), between, root);
        assert forall|k: int|
            walk.order.len() <= k < after.order.len() implies #[trigger] has_own_parent(
            files,
            after.order,
            k,
        ) by {
            if k < between.order.len() {
                assert(after.order[k] == between.order[k]);
                assert(has_own_parent(files, between.order, k));
            }
        }
        assert forall|k: int|
            walk.order.len() <= k < after.order.len() implies #[trigger] is_led_to(
            files,
            after.order,
            k,
            root,
        ) by {
            if k < between.order.len() {
                assert(after.order[k] == between.order[k]);
                assert(is_led_to(files, between.order, k, root));
            }
        }
        assert forall|i: int| 0 <= i < walk.order.len() implies #[trigger] after.order[i]
            == walk.order[i] by {
            assert(between.order[i] == walk.order[i]);
        }
    }
}

/// Whether a file stands in a list before another first does.
pub open spec fn comes_first(includes: Seq<FileId>, file: FileId, other: FileId) -> bool {
    exists|i: int|
        {
            &&& 0 <= i < includes.len()
            &&& #[trigger] includes[i] == file
            &&& forall|j: int| 0 <= j <= i ==> includes[j] != other
        }
}

/// Whether, of two files of a plan with the same parent, the parent includes the one that is
/// planned first before the other.
pub open spec fn are_in_order(
    files: Map<FileId, ProjectFileView>,
    order: Seq<PlannedFile>,
    k: int,
    later: int,
) -> bool {
    order[k].parent matches Some(parent) ==> (order[later].parent == Some(parent) ==> comes_first(
        files[parent].includes,
        order[k].file,
        order[later].file,
    ))
}

/// Whether the parent at a place of a plan is a file that a walk had not come to.
spec fn is_fresh(order: Seq<PlannedFile>, k: int, seen: Set<FileId>) -> bool {
    order[k].parent matches Some(parent) && !seen.contains(parent)
}

spec fn parents_seen(walk: Walk) -> bool {
    forall|k: int|
        0 <= k < walk.order.len() && (#[trigger] walk.order[k]).parent is Some
            ==> walk.seen.contains(walk.order[k].parent->0)
}

proof fn lemma_visit_in_order(
    files: Map<FileId, ProjectFileView>,
    depth: nat,
    file: FileId,
    parent: Option<FileId>,
    walk: Walk,
)
    requires
        files.dom().finite(),
        depth >= unseen(files, walk.seen),
        parents_seen(walk),
        parent matches Some(parent) ==> walk.seen.contains(parent),
    ensures
        ({
            let after = visit(files, depth, file, parent, walk);
            &&& parents_seen(after)
            &&& extends(after.order, walk.order)
            &&& forall|k: int|
                walk.order.len() <= k < after.order.len() && !is_fresh(
                    after.order,
                    k,
                    walk.seen,
                ) ==> #[trigger] after.order[k] == (PlannedFile { file, parent }) && k
                    == after.order.len() - 1 && !walk.seen.contains(file)
            &&& forall|k: int, later: int|
                walk.order.len() <= k < later < after.order.len() && is_fresh(
                    after.order,
                    k,
                    walk.seen,
                ) ==> #[trigger] are_in_order(files, after.order, k, later)
        }),
    decreases depth, 0nat,
{
    if !walk.seen.contains(file) && files.contains_key(file) {
        let marked = Walk { seen: walk.seen.insert(file), ..walk };
        let includes = files[file].includes;
        lemma_unseen_one_less(files, walk.seen, file);
        assert(includes.take(includes.len() as int) =~= includes);
        lemma_visit_all_in_order(files, (depth - 1) as nat, includes, file, marked);
        let below = visit_all(files, (depth - 1) as nat, includes, file, marked);
        let after = visit(files, depth, file, parent, walk);
        assert forall|k: int|
            walk.order.len() <= k < after.order.len() && !is_fresh(
                after.order,
                k,
                walk.seen,
            ) implies #[trigger] after.order[k] == (PlannedFile { file, parent }) && k
            == after.order.len() - 1 by {
            if k < below.order.len() {
                assert(after.order[k] == below.order[k]);
            }
        }
        assert forall|k: int, later: int|
            walk.order.len() <= k < later < after.order.len() && is_fresh(
                after.order,
                k,
                walk.seen,
            ) implies #[trigger] are_in_order(files, after.order, k, later) by {
            assert(after.order[k] == below.order[k]);
            if later < below.order.len() {
                assert(after.order[later] == below.order[later]);
                assert(are_in_order(files, below.order, k, later));
            }
        }
        lemma_visit_all_thorough(files, (depth - 1) as nat, includes, file, marked);
    }
}

proof fn lemma_visit_all_in_order(
    files: Map<FileId, ProjectFileView>,
    depth: nat,
    includes: Seq<FileId>,
    parent: FileId,
    walk: Walk,
)
    requires
        files.dom().finite(),
        depth >= unseen(files, walk.seen),
        parents_seen(walk),
        walk.seen.contains(parent),
        includes.len() <= files[parent].includes.len(),
        includes == files[parent].includes.take(includes.len() as int),
    ensures
        ({
            let after = visit_all(files, depth, includes, parent, walk);
            &&& parents_seen(after)
            &&& extends(after.order, walk.order)
            &&& forall|k: int|
                walk.order.len() <= k < after.order.len() && !is_fresh(
                    after.order,
                    k,
                    walk.seen,
                ) ==> (#[trigger] after.order[k]).parent == Some(parent) && includes.contains(
                    after.order[k].file,
                )
            &&& forall|k: int, later: int|
                walk.order.len() <= k < later < after.order.len() && (is_fresh(
                    after.order,
                    k,
                    walk.seen,
                ) || after.order[k].parent == Some(parent)) ==> #[trigger] are_in_order(
                    files,
                    after.order,
                    k,
                    later,
                )
        }),
    decreases depth, includes.len() + 1,
{
    if includes.len() > 0 {
        let fewer = includes.drop_last();
        let all = files[parent].includes;
        let next = includes.last();
        let between = visit_all(files, depth, fewer, parent, walk);
        let after = visit_all(files, depth, includes, parent, walk);
        assert(fewer =~= all.take(fewer.len() as int));
        lemma_visit_all_in_order(files, depth, fewer, parent, walk);
        lemma_visit_all_thorough(files, depth, fewer, parent, walk);
        lemma_unseen_shrinks(files, walk.seen, between.seen);
        lemma_visit_in_order(files, depth, next, Some(parent), between);
        assert(includes[includes.len() - 1] == next);
        assert forall|i: int| 0 <= i < walk.order.len() implies #[trigger] after.order[i]
            == walk.order[i] by {
            assert(between.order[i] == walk.order[i]);
        }
        assert forall|k: int|
            walk.order.len() <= k < after.order.len() && !is_fresh(
                after.order,
                k,
                walk.seen,
            ) implies (#[trigger] after.order[k]).parent == Some(parent) && includes.contains(
            after.order[k].file,
        ) by {
            if k < between.order.len() {
                assert(after.order[k] == between.order[k]);
                assert(fewer.contains(between.order[k].file));
                let i = choose|i: int| 0 <= i < fewer.len() && fewer[i] == between.order[k].file;
                assert(includes[i] == between.order[k].file);
            } else {
                assert(!is_fresh(after.order, k, between.seen));
            }
        }
        assert forall|k: int, later: int|
            walk.order.len() <= k < later < after.order.len() && (is_fresh(
                after.order,
                k,
                walk.seen,
            ) || after.order[k].parent == Some(parent)) implies #[trigger] are_in_order(
            files,
            after.order,
            k,
            later,
        ) by {
            if later < between.order.len() {
                assert(after.order[k] == between.order[k]);
                assert(after.order[later] == between.order[later]);
                assert(are_in_order(files, between.order, k, later));
            } else if k < between.order.len() {
                assert(after.order[k] == between.order[k]);
                if after.order[k].parent == after.order[later].parent {
                    assert(!is_fresh(after.order, later, between.seen));
                    assert(after.order[later].file == next);
                    assert(!is_fresh(between.order, k, walk.seen));
                    assert(fewer.contains(between.order[k].file));
                    let i = choose|i: int|
                        0 <= i < fewer.len() && fewer[i] == between.order[k].file;
                    assert(all[i] == between.order[k].file);
                    assert forall|j: int| 0 <= j <= i implies all[j] != next by {
                        assert(fewer[j] == all[j]);
                        assert(fewer.contains(fewer[j]));
                        assert(between.seen.contains(fewer[j]));
                    }
                    assert(comes_first(all, after.order[k].file, next));
                }
            } else {
                assert(is_fresh(after.order, k, between.seen));
                assert(are_in_order(files, after.order, k, later));
            }
        }
    }
}

/// Of two files of a plan with the same parent, the one that the parent includes first is
/// planned first.
pub proof fn lemma_plan_keeps_order(
    project: &Project,
    element: FileId,
    r: Vec<PlannedFile>,
    k: int,
    later: int,
)
    requires
        call_ensures(Project::analysis_plan, (project, element), r),
        0 <= k < later < r@.len(),
    ensures
        are_in_order(project@.files, r@, k, later),
{
    let files = project@.files;
    let root = root_of(files, element)->0;
    let start = Walk { seen: Set::empty(), order: Seq::empty() };
    lemma_files_finite(project);
    assert(files.dom().difference(Set::empty()) =~= files.dom());
    lemma_visit_in_order(files, files.dom().len(), root, None, start);
    if r@[k].parent is Some {
        assert(is_fresh(r@, k, start.seen));
    }
}

/// The analysis of a planned file at its start.
pub open spec fn planned_start(
    before: TreeState,
    file: FileId,
    loads: Seq<LoadOutcome>,
) -> Progress {
    let read = before.project.files[file];
    file_start(before.known, (read.file->0).source, read.file_type, before.project, loads)
}

/// Whether a label is written in an element of a planned file, once the files planned before
/// it were analyzed.
pub open spec fn writes_planned_label(
    start: TreeState,
    order: Seq<PlannedFile>,
    loads: Seq<Vec<LoadOutcome>>,
    k: int,
    label: Seq<char>,
) -> bool {
    let before = start.after_files(order.take(k), loads);
    &&& 0 <= k < order.len()
    &&& exists|m: int| #[trigger]
        has_label_at(
            planned_start(before, order[k].file, loads[k]@),
            (before.project.files[order[k].file].file->0).elements@,
            m,
            label,
        )
}

/// Whether a node with a path is written in an element of a planned file, once the files
/// planned before it were analyzed.
pub open spec fn writes_planned_node(
    start: TreeState,
    order: Seq<PlannedFile>,
    loads: Seq<Vec<LoadOutcome>>,
    k: int,
    path: Seq<NodeNameView>,
) -> bool {
    let before = start.after_files(order.take(k), loads);
    &&& 0 <= k < order.len()
    &&& exists|m: int| #[trigger]
        has_node_at(
            planned_start(before, order[k].file, loads[k]@),
            (before.project.files[order[k].file].file->0).elements@,
            m,
            path,
        )
}

proof fn lemma_known_after_files(
    start: TreeState,
    order: Seq<PlannedFile>,
    loads: Seq<Vec<LoadOutcome>>,
    label: Seq<char>,
    path: Seq<NodeNameView>,
)
    ensures
        ({
            let context = start.after_files(order, loads).known.context;
            &&& context.labels.contains_key(label) <==> start.known.context.labels.contains_key(
                label,
            ) || exists|k: int| #[trigger] writes_planned_label(start, order, loads, k, label)
            &&& context.nodes.contains_key(path) <==> start.known.context.nodes.contains_key(path)
                || exists|k: int| #[trigger] writes_planned_node(start, order, loads, k, path)
            &&& context.includes == start.known.context.includes
        }),
    decreases order.len(),
{
    if order.len() > 0 {
        let fewer = order.drop_last();
        let last = order.len() - 1;
        let before = start.after_files(fewer, loads);
        lemma_known_after_files(start, fewer, loads, label, path);
        assert(order.take(last) =~= fewer);
        let elements = (before.project.files[order[last].file].file->0).elements@;
        let file = planned_start(before, order[last].file, loads[last]@);
        lemma_label_known(file, elements, label);
        lemma_node_known(file, elements, path);
        lemma_includes_stay(file, elements);
        assert forall|k: int| 0 <= k < last implies #[trigger] order.take(k) == fewer.take(k) by {
            assert(order.take(k) =~= fewer.take(k));
        }
        assert forall|k: int| k != last implies #[trigger] writes_planned_label(
            start,
            order,
            loads,
            k,
            label,
        ) == writes_planned_label(start, fewer, loads, k, label) by {
            assert(0 <= k < last ==> order.take(k) == fewer.take(k));
        }
        assert forall|k: int| k != last implies #[trigger] writes_planned_node(
            start,
            order,
            loads,
            k,
            path,
        ) == writes_planned_node(start, fewer, loads, k, path) by {
            assert(0 <= k < last ==> order.take(k) == fewer.take(k));
        }
        assert(!writes_planned_label(start, fewer, loads, last, label));
        assert(!writes_planned_node(start, fewer, loads, last, path));
        if exists|k: int| #[trigger] writes_planned_label(start, fewer, loads, k, label) {
            let k = choose|k: int| #[trigger] writes_planned_label(start, fewer, loads, k, label);
            assert(writes_planned_label(start, order, loads, k, label));
        }
        if exists|k: int| #[trigger] writes_planned_node(start, fewer, loads, k, path) {
            let k = choose|k: int| #[trigger] writes_planned_node(start, fewer, loads, k, path);
            assert(writes_planned_node(start, order, loads, k, path));
        }
        if exists|m: int| #[trigger] has_label_at(file, elements, m, label) {
            assert(writes_planned_label(start, order, loads, last, label));
        }
        if exists|m: int| #[trigger] has_node_at(file, elements, m, path) {
            assert(writes_planned_node(start, order, loads, last, path));
        }
    } else {
        assert forall|k: int| !#[trigger] writes_planned_label(
            start,
            order,
            loads,
            k,
            label,
        ) by {}
        assert forall|k: int| !#[trigger] writes_planned_node(start, order, loads, k, path) by {}
    }
}

/// After an analysis of the tree of a file, the root holds what is known of the device tree: a
/// label or a path is known exactly if it is written in one of the planned files. Which file
/// each name stands for is what was known of it before.
pub proof fn lemma_tree_is_known(
    project: &mut Project,
    element: FileId,
    loads: &Vec<Vec<LoadOutcome>>,
    root: FileId,
    label: Seq<char>,
    path: Seq<NodeNameView>,
    name: Seq<char>,
)
    requires
        call_ensures(Project::analyze_tree_for, (project, element, loads), ()),
        root_of(old(project)@.files, element) == Some(root),
    ensures
        ({
            let start = old(project)@.tree_start(root);
            let order = analysis_order(old(project)@.files, root);
            &&& final(project)@.files[root].status matches StatusView::Root(context)
            &&& context.labels.contains_key(label) <==> exists|k: int| #[trigger]
                writes_planned_label(start, order, loads@, k, label)
            &&& context.nodes.contains_key(path) <==> exists|k: int| #[trigger]
                writes_planned_node(start, order, loads@, k, path)
            &&& match old(project)@.files[root].status {
                StatusView::Root(before) => context.includes.contains_key(name)
                    == before.includes.contains_key(name) && (before.includes.contains_key(name)
                    ==> context.includes[name] == before.includes[name]),
                _ => !context.includes.contains_key(name),
            }
        }),
{
    let start = old(project)@.tree_start(root);
    let order = analysis_order(old(project)@.files, root);
    lemma_known_after_files(start, order, loads@, label, path);
}

} // verus!
