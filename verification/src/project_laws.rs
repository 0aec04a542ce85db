//! What holds of every project.
use crate::analysis::file_start;
use crate::analysis_laws::{
    found_inclusion, lacks, lemma_primaries_grow, lemma_unreported_imports_noted,
};
use crate::data::FileId;
use crate::error_codes::ErrorCode;
use crate::graph::{
    is_walk, lemma_closed_holds_reached, lemma_reaches_itself, reaches, walk_between, Edges,
};
use crate::import_guard::acyclic;
use crate::loader::LoadOutcome;
use crate::parse::{given_up_view, next_inclusion, FrameView, RunState, WaitingView};
use crate::parse_laws::RunEvent;
use crate::project::{
    analysis_order, ancestor, ends_after, include_edges, lemma_files_stay,
    lemma_nothing_behind_end, lemma_plan_parsed, lemma_root_at_end, lemma_unseen_one_less,
    lemma_unseen_shrinks, root_of, sentinel_view, unseen, visit, visit_all, PlannedFile,
    ProjectFileView, ProjectView, TreeState, Walk,
};
use vstd::prelude::*;

verus! {

/// Whether only parsed files include others.
pub open spec fn includes_parsed(files: Map<FileId, ProjectFileView>) -> bool {
    forall|file: FileId| #[trigger]
        files.contains_key(file) && files[file].includes.len() > 0 ==> files[file].file is Some
}

/// Whether the parent of a planned file is planned for later.
pub open spec fn parent_later(order: Seq<PlannedFile>, k: int) -> bool {
    exists|m: int| k < m < order.len() && order[k].parent == Some((#[trigger] order[m]).file)
}

/// Whether the files of a plan differ and have all been seen.
pub open spec fn plan_of_seen(walk: Walk) -> bool {
    &&& forall|i: int, j: int|
        0 <= i < j < walk.order.len() ==> (#[trigger] walk.order[i]).file != (
        #[trigger] walk.order[j]).file
    &&& forall|i: int|
        0 <= i < walk.order.len() ==> walk.seen.contains((#[trigger] walk.order[i]).file)
}

/// Whether a plan starts with another.
pub open spec fn extends(order: Seq<PlannedFile>, start: Seq<PlannedFile>) -> bool {
    start.len() <= order.len() && forall|i: int|
        0 <= i < start.len() ==> #[trigger] order[i] == start[i]
}

/// A parent that is planned for later stays so however many files follow.
proof fn lemma_parent_stays_later(order: Seq<PlannedFile>, start: Seq<PlannedFile>, k: int)
    requires
        extends(order, start),
        0 <= k < start.len(),
        parent_later(start, k),
    ensures
        parent_later(order, k),
{
    let m = choose|m: int|
        k < m < start.len() && start[k].parent == Some((#[trigger] start[m]).file);
    assert(order[m] == start[m]);
    assert(order[k] == start[k]);
}

/// A walk plans each file once, and each file that it comes to by way of another before
/// that other.
proof fn lemma_visit_plan(
    files: Map<FileId, ProjectFileView>,
    depth: nat,
    file: FileId,
    parent: Option<FileId>,
    walk: Walk,
)
    requires
        includes_parsed(files),
        plan_of_seen(walk),
    ensures
        ({
            let after = visit(files, depth, file, parent, walk);
            &&& walk.seen.subset_of(after.seen)
            &&& plan_of_seen(after)
            &&& extends(after.order, walk.order)
            &&& forall|k: int|
                walk.order.len() <= k < after.order.len() ==> (#[trigger] after.order[k])
                    == (PlannedFile { file, parent }) || parent_later(after.order, k)
            &&& forall|k: int|
                walk.order.len() <= k < after.order.len() ==> !walk.seen.contains(
                    (#[trigger] after.order[k]).file,
                )
        }),
    decreases depth, 0nat,
{
    if !walk.seen.contains(file) && files.contains_key(file) && depth > 0 {
        let marked = Walk { seen: walk.seen.insert(file), ..walk };
        let includes = files[file].includes;
        lemma_visit_all_plan(files, (depth - 1) as nat, includes, file, marked);
        let below = visit_all(files, (depth - 1) as nat, includes, file, marked);
        let after = visit(files, depth, file, parent, walk);
        if files[file].file is Some {
            let entry = PlannedFile { file, parent };
            assert(after.order == below.order.push(entry));
            assert(forall|i: int|
                0 <= i < below.order.len() ==> (#[trigger] below.order[i]).file != file) by {
                assert forall|i: int| 0 <= i < below.order.len() implies (
                #[trigger] below.order[i]).file != file by {
                    if i < walk.order.len() {
                        assert(below.order[i] == walk.order[i]);
                    }
                }
            }
            assert forall|k: int| walk.order.len() <= k < after.order.len() implies (
            #[trigger] after.order[k]) == entry || parent_later(after.order, k) by {
                if k < below.order.len() {
                    assert(after.order[k] == below.order[k]);
                    if parent_later(below.order, k) {
                        lemma_parent_stays_later(after.order, below.order, k);
                    } else {
                        assert(after.order[below.order.len() as int].file == file);
                    }
                }
            }
        } else {
            assert(includes =~= Seq::empty());
        }
    }
}

proof fn lemma_visit_all_plan(
    files: Map<FileId, ProjectFileView>,
    depth: nat,
    includes: Seq<FileId>,
    parent: FileId,
    walk: Walk,
)
    requires
        includes_parsed(files),
        plan_of_seen(walk),
        walk.seen.contains(parent),
    ensures
        ({
            let after = visit_all(files, depth, includes, parent, walk);
            &&& walk.seen.subset_of(after.seen)
            &&& plan_of_seen(after)
            &&& extends(after.order, walk.order)
            &&& forall|k: int|
                walk.order.len() <= k < after.order.len() ==> (#[trigger] after.order[k]).parent
                    == Some(parent) || parent_later(after.order, k)
            &&& forall|k: int|
                walk.order.len() <= k < after.order.len() ==> !walk.seen.contains(
                    (#[trigger] after.order[k]).file,
                )
        }),
    decreases depth, includes.len() + 1,
{
    if includes.len() > 0 {
        let before = visit_all(files, depth, includes.drop_last(), parent, walk);
        let after = visit_all(files, depth, includes, parent, walk);
        lemma_visit_all_plan(files, depth, includes.drop_last(), parent, walk);
        lemma_visit_plan(files, depth, includes.last(), Some(parent), before);
        assert forall|k: int| walk.order.len() <= k < after.order.len() implies (
        #[trigger] after.order[k]).parent == Some(parent) || parent_later(after.order, k) by {
            if k < before.order.len() {
                assert(after.order[k] == before.order[k]);
                if parent_later(before.order, k) {
                    lemma_parent_stays_later(after.order, before.order, k);
                }
            }
        }
        assert forall|k: int| walk.order.len() <= k < after.order.len() implies
            !walk.seen.contains((#[trigger] after.order[k]).file) by {
            if k < before.order.len() {
                assert(after.order[k] == before.order[k]);
            }
        }
    }
}

/// One more parent from a file is one fewer from its parent.
pub(crate) proof fn lemma_ancestor_of_parent(
    files: Map<FileId, ProjectFileView>,
    file: FileId,
    parent: FileId,
    steps: nat,
)
    requires
        files.contains_key(file),
        files[file].parent == Some(parent),
    ensures
        ancestor(files, file, steps + 1) == ancestor(files, parent, steps),
    decreases steps,
{
    if steps == 0 {
        assert(ancestor(files, file, 0) == Some(file));
    } else {
        lemma_ancestor_of_parent(files, file, parent, (steps - 1) as nat);
    }
}

/// The parent, the status and the findings of an analyzed file are those that its
/// analysis gave.
pub(crate) proof fn lemma_analyzed_file(
    start: TreeState,
    order: Seq<PlannedFile>,
    loads: Seq<Vec<LoadOutcome>>,
    k: int,
)
    requires
        0 <= k < order.len(),
        forall|i: int, j: int|
            0 <= i < j < order.len() ==> (#[trigger] order[i]).file != (#[trigger] order[j]).file,
    ensures
        start.after_files(order, loads).project.files.contains_key(order[k].file),
        start.after_files(order, loads).project.files[order[k].file] == start.after_files(
            order.take(k),
            loads,
        ).after_file(order[k], loads[k]@).project.files[order[k].file],
    decreases order.len(),
{
    if k < order.len() - 1 {
        let fewer = order.drop_last();
        assert forall|i: int, j: int| 0 <= i < j < fewer.len() implies (
        #[trigger] fewer[i]).file != (#[trigger] fewer[j]).file by {
            assert(order[i].file != order[j].file);
        }
        lemma_analyzed_file(start, fewer, loads, k);
        assert(fewer.take(k) =~= order.take(k));
        assert(fewer[k] == order[k]);
        assert(order[k].file != order[order.len() - 1].file);
    } else {
        assert(order.take(k) =~= order.drop_last());
    }
}

/// The plan of an analysis: each file stands in it once, and before the file by way of
/// which it is included.
pub proof fn lemma_plan_order(files: Map<FileId, ProjectFileView>, root: FileId)
    requires
        includes_parsed(files),
    ensures
        ({
            let order = analysis_order(files, root);
            &&& forall|i: int, j: int|
                0 <= i < j < order.len() ==> (#[trigger] order[i]).file != (
                #[trigger] order[j]).file
            &&& forall|k: int|
                0 <= k < order.len() ==> (#[trigger] order[k]) == (PlannedFile {
                    file: root,
                    parent: None,
                }) || parent_later(order, k)
        }),
{
    lemma_visit_plan(
        files,
        files.dom().len(),
        root,
        None,
        Walk { seen: Set::empty(), order: Seq::empty() },
    );
}

/// The chain of parents of each analyzed file ends at the root.
proof fn lemma_chain_to_root(
    project: ProjectView,
    root: FileId,
    loads: Seq<Vec<LoadOutcome>>,
    k: int,
) -> (steps: nat)
    requires
        includes_parsed(project.files),
        0 <= k < analysis_order(project.files, root).len(),
    ensures
        ends_after(
            project.analyzed(root, loads).files,
            analysis_order(project.files, root)[k].file,
            steps,
        ),
        ancestor(
            project.analyzed(root, loads).files,
            analysis_order(project.files, root)[k].file,
            steps,
        ) == Some(root),
    decreases analysis_order(project.files, root).len() - k,
{
    let order = analysis_order(project.files, root);
    let start = project.tree_start(root);
    let now = project.analyzed(root, loads).files;
    let file = order[k].file;
    lemma_plan_order(project.files, root);
    lemma_analyzed_file(start, order, loads, k);
    assert(now.contains_key(file));
    assert(now[file].parent == order[k].parent);
    if order[k] == (PlannedFile { file: root, parent: None }) {
        assert(ancestor(now, file, 0) == Some(root));
        0
    } else {
        let m = choose|m: int|
            k < m < order.len() && order[k].parent == Some((#[trigger] order[m]).file);
        let steps = lemma_chain_to_root(project, root, loads, m);
        lemma_ancestor_of_parent(now, file, order[m].file, steps);
        steps + 1
    }
}

/// After an analysis, what is known of the device tree of each analyzed file is what the
/// analysis came to know.
pub proof fn lemma_analysis_is_shared(
    project: ProjectView,
    root: FileId,
    loads: Seq<Vec<LoadOutcome>>,
    k: int,
)
    requires
        includes_parsed(project.files),
        0 <= k < analysis_order(project.files, root).len(),
    ensures
        root_of(
            project.analyzed(root, loads).files,
            analysis_order(project.files, root)[k].file,
        ) == Some(root),
        project.analyzed(root, loads).analysis_of(analysis_order(project.files, root)[k].file)
            == Some(
            project.tree_start(root).after_files(
                analysis_order(project.files, root),
                loads,
            ).known.context,
        ),
{
    let order = analysis_order(project.files, root);
    let steps = lemma_chain_to_root(project, root, loads, k);
    lemma_root_at_end(project.analyzed(root, loads).files, order[k].file, steps);
}

/// Fewer edges reach no more.
proof fn lemma_reaches_with_fewer(few: Edges, many: Edges, from: FileId, to: FileId)
    requires
        few.subset_of(many),
        reaches(few, from, to),
    ensures
        reaches(many, from, to),
{
    let walk = choose|walk: Seq<FileId>| walk_between(few, walk, from, to);
    assert(is_walk(many, walk)) by {
        assert forall|i: int| 0 <= i < walk.len() - 1 implies many.contains(
            (#[trigger] walk[i], walk[i + 1]),
        ) by {
            assert(few.contains((walk[i], walk[i + 1])));
        }
    }
    assert(walk_between(many, walk, from, to));
}

/// Which file includes which other, by the paths by which they were found, in the files
/// of a plan.
pub open spec fn found_edges(
    files: Map<FileId, ProjectFileView>,
    order: Seq<PlannedFile>,
    loads: Seq<Vec<LoadOutcome>>,
) -> Edges {
    Set::new(
        |edge: (FileId, FileId)|
            exists|k: int, i: int|
                0 <= k < order.len() && is_found_edge(files, order[k], loads[k]@, i, edge),
    )
}

/// Whether the element at `i` of a planned file includes one that was found.
pub open spec fn is_found_edge(
    files: Map<FileId, ProjectFileView>,
    planned: PlannedFile,
    loads: Seq<LoadOutcome>,
    i: int,
    edge: (FileId, FileId),
) -> bool {
    let file = files[planned.file].file->0;
    &&& 0 <= i < file.elements@.len()
    &&& edge.0 == file.source
    &&& found_inclusion(file.elements@, loads, i) == Some(edge.1)
}

/// The analysis of files closes no circle of imports, and takes back none.
proof fn lemma_tree_grows(start: TreeState, order: Seq<PlannedFile>, loads: Seq<Vec<LoadOutcome>>)
    ensures
        start.known.imports.subset_of(start.after_files(order, loads).known.imports),
        acyclic(start.known.imports) ==> acyclic(
            start.after_files(order, loads).known.imports,
        ),
    decreases order.len(),
{
    if order.len() > 0 {
        let before = start.after_files(order.drop_last(), loads);
        let planned = order.last();
        let file = before.project.files[planned.file];
        lemma_tree_grows(start, order.drop_last(), loads);
        lemma_primaries_grow(
            file_start(
                before.known,
                (file.file->0).source,
                file.file_type,
                before.project,
                loads[order.len() - 1]@,
            ),
            (file.file->0).elements@,
        );
    }
}

/// Imports that were noted on the way are there at the end.
proof fn lemma_tree_grows_from(
    start: TreeState,
    order: Seq<PlannedFile>,
    loads: Seq<Vec<LoadOutcome>>,
    k: int,
)
    requires
        0 <= k <= order.len(),
    ensures
        start.after_files(order.take(k), loads).known.imports.subset_of(
            start.after_files(order, loads).known.imports,
        ),
    decreases order.len(),
{
    if k < order.len() {
        let fewer = order.drop_last();
        assert(fewer.take(k) =~= order.take(k));
        lemma_tree_grows_from(start, fewer, loads, k);
        let before = start.after_files(fewer, loads);
        let file = before.project.files[order.last().file];
        lemma_primaries_grow(
            file_start(
                before.known,
                (file.file->0).source,
                file.file_type,
                before.project,
                loads[order.len() - 1]@,
            ),
            (file.file->0).elements@,
        );
    } else {
        assert(order.take(k) =~= order);
    }
}

/// Files that include each other in a circle are reported: if no analyzed file has a
/// finding about a circle, the inclusions that were found form none.
pub proof fn lemma_circle_is_reported(
    project: ProjectView,
    root: FileId,
    loads: Seq<Vec<LoadOutcome>>,
)
    requires
        includes_parsed(project.files),
        forall|k: int|
            0 <= k < analysis_order(project.files, root).len() ==> lacks(
                project.analyzed(root, loads).files[(#[trigger] analysis_order(
                    project.files,
                    root,
                )[k]).file].analysis_diagnostics,
                ErrorCode::CyclicDependencyError,
            ),
    ensures
        acyclic(found_edges(project.files, analysis_order(project.files, root), loads)),
{
    let order = analysis_order(project.files, root);
    let start = project.tree_start(root);
    let end = start.after_files(order, loads);
    let edges = found_edges(project.files, order, loads);
    lemma_plan_order(project.files, root);
    lemma_plan_parsed(project.files, root);
    lemma_tree_grows(start, order, loads);
    assert(acyclic(start.known.imports));
    assert forall|edge: (FileId, FileId)| edges.contains(edge) implies
        end.known.imports.contains(edge) by {
        let (k, i) = choose|k: int, i: int|
            0 <= k < order.len() && is_found_edge(project.files, order[k], loads[k]@, i, edge);
        lemma_found_edge_noted(project, root, loads, k, i, edge);
    }
    assert forall|from: FileId, to: FileId| #[trigger] edges.contains((from, to)) implies !reaches(
        edges,
        to,
        from,
    ) by {
        assert(end.known.imports.contains((from, to)));
        if reaches(edges, to, from) {
            lemma_reaches_with_fewer(edges, end.known.imports, to, from);
        }
    }
}

/// An inclusion that was found in a file without a finding about a circle is noted.
proof fn lemma_found_edge_noted(
    project: ProjectView,
    root: FileId,
    loads: Seq<Vec<LoadOutcome>>,
    k: int,
    i: int,
    edge: (FileId, FileId),
)
    requires
        includes_parsed(project.files),
        0 <= k < analysis_order(project.files, root).len(),
        is_found_edge(
            project.files,
            analysis_order(project.files, root)[k],
            loads[k]@,
            i,
            edge,
        ),
        lacks(
            project.analyzed(root, loads).files[analysis_order(
                project.files,
                root,
            )[k].file].analysis_diagnostics,
            ErrorCode::CyclicDependencyError,
        ),
    ensures
        project.tree_start(root).after_files(
            analysis_order(project.files, root),
            loads,
        ).known.imports.contains(edge),
{
    let order = analysis_order(project.files, root);
    let start = project.tree_start(root);
    let before = start.after_files(order.take(k), loads);
    let planned = order[k];
    lemma_plan_order(project.files, root);
    lemma_plan_parsed(project.files, root);
    lemma_analyzed_file(start, order, loads, k);
    assert forall|j: int| 0 <= j < order.take(k).len() implies (project.files.contains_key(
        (#[trigger] order.take(k)[j]).file,
    ) && project.files[order.take(k)[j].file].file is Some) by {
        assert(order.take(k)[j] == order[j]);
    }
    lemma_files_stay(start, order.take(k), loads);
    let file = before.project.files[planned.file];
    assert(file.file == project.files[planned.file].file);
    let begun = file_start(
        before.known,
        (file.file->0).source,
        file.file_type,
        before.project,
        loads[k]@,
    );
    let primaries = (file.file->0).elements@;
    let finished = begun.after_primaries(primaries);
    assert forall|j: int| 0 <= j < finished.file.diagnostics.len() implies (
    #[trigger] finished.file.diagnostics[j]).kind != ErrorCode::CyclicDependencyError by {
        assert(finished.findings()[j] == finished.file.diagnostics[j]);
    }
    lemma_unreported_imports_noted(begun, primaries, i);
    assert(order.take(k + 1).drop_last() =~= order.take(k));
    lemma_tree_grows_from(start, order, loads, k + 1);
}

/// A file that is forgotten is forgotten with all that it includes, and whatever it does
/// not include stays as it was.
pub proof fn lemma_forgotten_tree(project: ProjectView, root: FileId, file: FileId)
    ensures
        !project.without_tree(root).files.contains_key(root),
        reaches(include_edges(project.files), root, file) ==> !project.without_tree(
            root,
        ).files.contains_key(file),
        !reaches(include_edges(project.files), root, file) && project.files.contains_key(file)
            ==> project.without_tree(root).files.contains_key(file) && project.without_tree(
            root,
        ).files[file] == project.files[file],
{
    lemma_reaches_itself(include_edges(project.files), root);
}

/// Whether a file is planned.
pub open spec fn is_planned(order: Seq<PlannedFile>, file: FileId) -> bool {
    exists|k: int| 0 <= k < order.len() && (#[trigger] order[k]).file == file
}

/// Whether a walk that has gone on has come to all that the files include that it has
/// newly come to, and has planned those of them that were parsed.
pub(crate) open spec fn is_thorough(
    files: Map<FileId, ProjectFileView>,
    walk: Walk,
    after: Walk,
) -> bool {
    &&& walk.seen.subset_of(after.seen)
    &&& extends(after.order, walk.order)
    &&& forall|file: FileId, next: FileId|
        after.seen.contains(file) && !walk.seen.contains(file) && files.contains_key(file)
            && #[trigger] files[file].includes.contains(next) ==> after.seen.contains(next)
    &&& forall|file: FileId| #[trigger]
        after.seen.contains(file) && !walk.seen.contains(file) && files.contains_key(file)
            && files[file].file is Some ==> is_planned(after.order, file)
}

/// What is planned stays planned however many files follow.
pub(crate) proof fn lemma_stays_planned(
    order: Seq<PlannedFile>,
    start: Seq<PlannedFile>,
    file: FileId,
)
    requires
        extends(order, start),
        is_planned(start, file),
    ensures
        is_planned(order, file),
{
    let k = choose|k: int| 0 <= k < start.len() && (#[trigger] start[k]).file == file;
    assert(order[k] == start[k]);
}

/// A walk that goes on twice thoroughly has gone on thoroughly.
proof fn lemma_thorough_twice(
    files: Map<FileId, ProjectFileView>,
    walk: Walk,
    between: Walk,
    after: Walk,
)
    requires
        is_thorough(files, walk, between),
        is_thorough(files, between, after),
    ensures
        is_thorough(files, walk, after),
{
    assert forall|i: int| 0 <= i < walk.order.len() implies #[trigger] after.order[i]
        == walk.order[i] by {
        assert(between.order[i] == walk.order[i]);
    }
    assert forall|file: FileId, next: FileId|
        after.seen.contains(file) && !walk.seen.contains(file) && files.contains_key(file)
            && #[trigger] files[file].includes.contains(next) implies after.seen.contains(next) by {
        if between.seen.contains(file) {
            assert(between.seen.contains(next));
        }
    }
    assert forall|file: FileId| #[trigger]
        after.seen.contains(file) && !walk.seen.contains(file) && files.contains_key(file)
            && files[file].file is Some implies is_planned(after.order, file) by {
        if between.seen.contains(file) {
            lemma_stays_planned(after.order, between.order, file);
        }
    }
}

/// A walk that may go deep enough is thorough.
proof fn lemma_visit_thorough(
    files: Map<FileId, ProjectFileView>,
    depth: nat,
    file: FileId,
    parent: Option<FileId>,
    walk: Walk,
)
    requires
        files.dom().finite(),
        depth >= unseen(files, walk.seen),
    ensures
        is_thorough(files, walk, visit(files, depth, file, parent, walk)),
        visit(files, depth, file, parent, walk).seen.contains(file),
    decreases depth, 0nat,
{
    if !walk.seen.contains(file) && files.contains_key(file) {
        let marked = Walk { seen: walk.seen.insert(file), ..walk };
        let includes = files[file].includes;
        lemma_unseen_one_less(files, walk.seen, file);
        lemma_visit_all_thorough(files, (depth - 1) as nat, includes, file, marked);
        let below = visit_all(files, (depth - 1) as nat, includes, file, marked);
        let after = visit(files, depth, file, parent, walk);
        assert(files[file].file is Some ==> after.order[below.order.len() as int].file == file);
        assert forall|f: FileId| #[trigger]
            after.seen.contains(f) && !walk.seen.contains(f) && files.contains_key(f)
                && files[f].file is Some implies is_planned(after.order, f) by {
            if f != file {
                assert(below.seen.contains(f) && !marked.seen.contains(f));
                lemma_stays_planned(after.order, below.order, f);
            }
        }
        assert forall|f: FileId, next: FileId|
            after.seen.contains(f) && !walk.seen.contains(f) && files.contains_key(f)
                && #[trigger] files[f].includes.contains(next) implies after.seen.contains(
            next,
        ) by {
            if f != file {
                assert(below.seen.contains(f) && !marked.seen.contains(f));
            }
        }
    }
}

pub(crate) proof fn lemma_visit_all_thorough(
    files: Map<FileId, ProjectFileView>,
    depth: nat,
    includes: Seq<FileId>,
    parent: FileId,
    walk: Walk,
)
    requires
        files.dom().finite(),
        depth >= unseen(files, walk.seen),
    ensures
        is_thorough(files, walk, visit_all(files, depth, includes, parent, walk)),
        forall|next: FileId| #[trigger]
            includes.contains(next) ==> visit_all(
                files,
                depth,
                includes,
                parent,
                walk,
            ).seen.contains(next),
    decreases depth, includes.len() + 1,
{
    if includes.len() > 0 {
        let fewer = includes.drop_last();
        let between = visit_all(files, depth, fewer, parent, walk);
        let after = visit_all(files, depth, includes, parent, walk);
        lemma_visit_all_thorough(files, depth, fewer, parent, walk);
        lemma_unseen_shrinks(files, walk.seen, between.seen);
        lemma_visit_thorough(files, depth, includes.last(), Some(parent), between);
        lemma_thorough_twice(files, walk, between, after);
        assert forall|next: FileId| #[trigger] includes.contains(next) implies after.seen.contains(
            next,
        ) by {
            let i = choose|i: int| 0 <= i < includes.len() && includes[i] == next;
            if i < fewer.len() {
                assert(fewer[i] == next);
                assert(fewer.contains(next));
            }
        }
    }
}

/// Every parsed file that a root includes, at once or by way of other files, is analyzed
/// together with it, and the root itself too.
pub proof fn lemma_plan_is_complete(
    files: Map<FileId, ProjectFileView>,
    root: FileId,
    file: FileId,
)
    requires
        files.dom().finite(),
        reaches(include_edges(files), root, file),
        files.contains_key(file),
        files[file].file is Some,
    ensures
        is_planned(analysis_order(files, root), file),
{
    let start = Walk { seen: Set::empty(), order: Seq::empty() };
    let depth = files.dom().len();
    assert(files.dom().difference(Set::empty()) =~= files.dom());
    lemma_visit_thorough(files, depth, root, None, start);
    let after = visit(files, depth, root, None, start);
    let edges = include_edges(files);
    let walk = choose|walk: Seq<FileId>| walk_between(edges, walk, root, file);
    assert forall|f: FileId, next: FileId|
        after.seen.contains(f) && #[trigger] edges.contains((f, next)) implies after.seen.contains(
        next,
    ) by {
        assert(files[f].includes.contains(next));
    }
    lemma_closed_holds_reached(edges, after.seen, walk, root, file);
}

/// The events of a run keep it so that only parsed files include others.
pub proof fn lemma_run_keeps_includes_parsed(state: RunState, event: RunEvent)
    requires
        state.awaits(event),
        includes_parsed(state.project.files),
    ensures
        includes_parsed(state.after(event).project.files),
{
    match event {
        RunEvent::Parsed(result) => {
            if let WaitingView::Parse { path, text, file_type, parent } = state.waiting {
                match result {
                    Ok((file, diagnostics)) => {
                        let frame = FrameView {
                            path,
                            parent: state.parent_of(path, parent),
                            text,
                            file_type,
                            file,
                            diagnostics,
                            includes: Seq::empty(),
                            next: 0,
                        };
                        let then = RunState {
                            stack: state.stack.push(frame),
                            ..state.with_file(path, sentinel_view())
                        };
                        lemma_resumed_keeps_includes_parsed(then);
                    },
                    Err(err) => {
                        lemma_resumed_keeps_includes_parsed(
                            state.with_file(
                                path,
                                given_up_view(
                                    state.parent_of(path, parent),
                                    err,
                                    text,
                                    file_type,
                                ),
                            ),
                        );
                    },
                }
            }
        },
        _ => {
            assert forall|frame: FrameView| includes_parsed(
                #[trigger] state.with_top(frame).resumed().project.files,
            ) by {
                lemma_resumed_keeps_includes_parsed(state.with_top(frame));
            }
        },
    }
}

proof fn lemma_resumed_keeps_includes_parsed(state: RunState)
    requires
        includes_parsed(state.project.files),
    ensures
        includes_parsed(state.resumed().project.files),
    decreases state.stack.len(),
{
    if state.stack.len() > 0 {
        let top = state.stack.last();
        if next_inclusion(top.file.elements@, top.next) is None {
            lemma_resumed_keeps_includes_parsed(
                RunState {
                    stack: state.stack.drop_last(),
                    ..state.with_file(top.path, top.finished())
                },
            );
        }
    }
}

/// An analysis keeps it so that only parsed files include others, and so does it to
/// forget a file.
pub proof fn lemma_analysis_keeps_includes_parsed(
    project: ProjectView,
    root: FileId,
    loads: Seq<Vec<LoadOutcome>>,
)
    requires
        includes_parsed(project.files),
        project.files.contains_key(root),
    ensures
        includes_parsed(project.analyzed(root, loads).files),
        includes_parsed(project.without_tree(root).files),
{
    lemma_plan_parsed(project.files, root);
    lemma_files_stay(
        project.tree_start(root),
        analysis_order(project.files, root),
        loads,
    );
}

/// The root of a file is in the project and has no parent; a file without a parent is its
/// own root.
pub proof fn lemma_root_has_no_parent(files: Map<FileId, ProjectFileView>, file: FileId)
    ensures
        root_of(files, file) matches Some(root) ==> files.contains_key(root)
            && files[root].parent is None,
        files.contains_key(file) && files[file].parent is None ==> root_of(files, file) == Some(
            file,
        ),
{
    if exists|steps: nat| ends_after(files, file, steps) {
        let steps = choose|steps: nat| ends_after(files, file, steps);
        assert(ends_after(files, file, steps));
        lemma_ancestor_in_project(files, file, steps);
    }
    if files.contains_key(file) && files[file].parent is None {
        assert(ancestor(files, file, 0) == Some(file));
        assert(ends_after(files, file, 0));
        lemma_root_at_end(files, file, 0);
    }
}

proof fn lemma_ancestor_in_project(
    files: Map<FileId, ProjectFileView>,
    file: FileId,
    steps: nat,
)
    ensures
        ancestor(files, file, steps) matches Some(found) ==> files.contains_key(found),
{
    if steps > 0 {
        assert(ancestor(files, file, steps) == match ancestor(files, file, (steps - 1) as nat) {
            Some(child) => match files[child].parent {
                Some(parent) if files.contains_key(parent) => Some(parent),
                _ => None,
            },
            None => None,
        });
    }
}

/// Whether no file leads back to itself along parents.
pub open spec fn parents_without_circle(files: Map<FileId, ProjectFileView>) -> bool {
    forall|file: FileId, steps: nat|
        steps > 0 ==> #[trigger] ancestor(files, file, steps) != Some(file)
}

/// Whether a file and all that parents lead to from it are in the project.
pub open spec fn parents_in_project(files: Map<FileId, ProjectFileView>, file: FileId) -> bool {
    &&& files.contains_key(file)
    &&& forall|steps: nat|
        (#[trigger] ancestor(files, file, steps)) is Some ==> (files[ancestor(
            files,
            file,
            steps,
        )->0].parent matches Some(parent) ==> files.contains_key(parent))
}

/// Unless parents go round in a circle: a file has a root exactly if the file and all that
/// parents lead to from it are in the project. Parents lead to the root, which has none
/// itself. A file is its own root exactly if it is in the project without a parent, and a
/// root is its own root.
pub proof fn lemma_root_of_file(files: Map<FileId, ProjectFileView>, file: FileId)
    requires
        files.dom().finite(),
        parents_without_circle(files),
    ensures
        root_of(files, file) is Some <==> parents_in_project(files, file),
        root_of(files, file) matches Some(root) ==> {
            &&& files.contains_key(root)
            &&& files[root].parent is None
            &&& exists|steps: nat| ancestor(files, file, steps) == Some(root)
            &&& root_of(files, root) == Some(root)
        },
        root_of(files, file) == Some(file) <==> files.contains_key(file)
            && files[file].parent is None,
{
    lemma_root_has_no_parent(files, file);
    if let Some(root) = root_of(files, file) {
        lemma_root_has_no_parent(files, root);
        let end = choose|steps: nat| ends_after(files, file, steps);
        assert(ends_after(files, file, end));
        assert forall|steps: nat|
            (#[trigger] ancestor(files, file, steps)) is Some implies (files[ancestor(
            files,
            file,
            steps,
        )->0].parent matches Some(parent) ==> files.contains_key(parent)) by {
            if steps > end {
                lemma_nothing_behind_end(files, file, end, steps);
            } else if steps < end {
                if ancestor(files, file, steps + 1) is None && steps + 1 < end {
                    lemma_nothing_behind_end(files, file, steps + 1, end);
                }
            }
        }
        if !files.contains_key(file) && end > 0 {
            assert(ancestor(files, file, 0) is None);
            lemma_nothing_behind_end(files, file, 0, end);
        }
    } else if parents_in_project(files, file) {
        let count = files.dom().len() + 1;
        lemma_ancestors_differ(files, file, count);
        vstd::set_lib::lemma_len_subset(ancestors(files, file, count), files.dom());
    }
}

/// Unless parents go round in a circle: a file has a root, with its status, exactly if the
/// file and all that parents lead to from it are in the project. The root is the one of
/// them without a parent. It is the file itself exactly if that has no parent, and to ask at
/// the root gives the same root with the same status.
pub proof fn lemma_analysis_root_for(project: ProjectView, file: FileId)
    requires
        project.files.dom().finite(),
        parents_without_circle(project.files),
    ensures
        project.analysis_root_for(file) is Some <==> parents_in_project(project.files, file),
        project.analysis_root_for(file) matches Some((root, status)) ==> {
            &&& exists|steps: nat| ancestor(project.files, file, steps) == Some(root)
            &&& project.files.contains_key(root)
            &&& project.files[root].parent is None
            &&& project.files[root].status == status
            &&& root == file <==> project.files[file].parent is None
            &&& project.analysis_root_for(root) == Some((root, status))
        },
{
    lemma_root_of_file(project.files, file);
}

/// The first files that parents lead to from a file, and the file itself.
spec fn ancestors(files: Map<FileId, ProjectFileView>, file: FileId, count: nat) -> Set<FileId>
    decreases count,
{
    if count == 0 {
        Set::empty()
    } else {
        let before = (count - 1) as nat;
        ancestors(files, file, before).insert(ancestor(files, file, before)->0)
    }
}

/// Parents that neither end nor go round in a circle lead to ever more files.
proof fn lemma_ancestors_differ(
    files: Map<FileId, ProjectFileView>,
    file: FileId,
    count: nat,
)
    requires
        parents_without_circle(files),
        parents_in_project(files, file),
        root_of(files, file) is None,
    ensures
        ancestor(files, file, count) is Some,
        ancestors(files, file, count).finite(),
        ancestors(files, file, count).len() == count,
        ancestors(files, file, count).subset_of(files.dom()),
        forall|found: FileId| #[trigger]
            ancestors(files, file, count).contains(found) ==> exists|steps: nat|
                steps < count && ancestor(files, file, steps) == Some(found),
    decreases count,
{
    if count > 0 {
        let before = (count - 1) as nat;
        lemma_ancestors_differ(files, file, before);
        let last = ancestor(files, file, before)->0;
        if files[last].parent is None {
            assert(ends_after(files, file, before));
            lemma_root_at_end(files, file, before);
        }
        lemma_ancestor_in_project(files, file, before);
        if ancestors(files, file, before).contains(last) {
            let steps = choose|steps: nat|
                steps < before && ancestor(files, file, steps) == Some(last);
            lemma_ancestor_of_ancestor(files, file, steps, (before - steps) as nat);
        }
        assert forall|found: FileId| #[trigger]
            ancestors(files, file, count).contains(found) implies exists|steps: nat|
            steps < count && ancestor(files, file, steps) == Some(found) by {
            if found == last {
                assert(ancestor(files, file, before) == Some(last));
            } else {
                let steps = choose|steps: nat|
                    steps < before && ancestor(files, file, steps) == Some(found);
                assert(steps < count && ancestor(files, file, steps) == Some(found));
            }
        }
    }
}

/// Parents lead on from where they lead to.
proof fn lemma_ancestor_of_ancestor(
    files: Map<FileId, ProjectFileView>,
    file: FileId,
    steps: nat,
    more: nat,
)
    requires
        ancestor(files, file, steps) is Some,
    ensures
        ancestor(files, file, steps + more) == ancestor(
            files,
            ancestor(files, file, steps)->0,
            more,
        ),
    decreases more,
{
    if more == 0 {
        lemma_ancestor_in_project(files, file, steps);
    } else {
        lemma_ancestor_of_ancestor(files, file, steps, (more - 1) as nat);
    }
}

} // verus!
