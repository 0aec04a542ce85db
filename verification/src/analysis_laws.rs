//! What holds of every analysis.
use crate::analysis::{deferred_findings, file_end, file_start, AnalysisView, Progress};
use crate::ast::{
    AnyDirective, DtsFile, Include, Node, NodeItem, NodeNameView, NodePayload, PathView, Primary,
    PropertyValue, ReferenceView, ReferencedNode,
};
use crate::context::{
    child_along, first_named, last_named, ContextView, LabeledView, ReferenceContext,
};
use crate::data::{FileId, FileType};
use crate::diagnostics::DiagnosticView;
use crate::error_codes::ErrorCode;
use crate::import_guard::{acyclic, closes_circle, import_edges, lemma_import_keeps_acyclic};
use crate::loader::LoadOutcome;
use crate::project::ProjectView;
use crate::tree::{
    among, bind_all, items_findings, items_labels, items_paths, items_requests, lemma_bind_all_keys,
    lemma_bind_all_more, local_findings, node_labels, node_paths, non_string_findings, own_labels,
    primaries_requests, primary_requests, referenced_labels, values_findings, PlacedReference,
};
use std::sync::Arc;
use vstd::prelude::*;

verus! {

/// Whether an element of a file has a label in it.
pub open spec fn has_label(primary: Primary, label: Seq<char>) -> bool {
    match primary {
        Primary::Root(node) => among(node_labels(node, Seq::empty()), label),
        Primary::ReferencedNode(node) => among(referenced_labels(node), label) || among(
            items_labels(node.payload.items@, Seq::empty()),
            label,
        ),
        _ => false,
    }
}

/// Whether two lists of labels name the same, one after the other.
spec fn same_keys(a: Seq<(Seq<char>, LabeledView)>, b: Seq<(Seq<char>, LabeledView)>) -> bool {
    a.len() == b.len() && forall|i: int| 0 <= i < a.len() ==> (#[trigger] a[i]).0 == b[i].0
}

/// Which labels there are does not depend on where they stand.
proof fn lemma_labels_anywhere(
    items: Seq<NodeItem>,
    here: Seq<NodeNameView>,
    there: Seq<NodeNameView>,
)
    ensures
        same_keys(items_labels(items, here), items_labels(items, there)),
    decreases items,
{
    if items.len() > 0 {
        lemma_labels_anywhere(items.drop_last(), here, there);
        if let NodeItem::Node(node) = items.last() {
            lemma_node_labels_anywhere(
                node,
                here.push(node.name.item@),
                there.push(node.name.item@),
            );
        }
    }
}

proof fn lemma_node_labels_anywhere(
    node: Arc<Node>,
    here: Seq<NodeNameView>,
    there: Seq<NodeNameView>,
)
    ensures
        same_keys(node_labels(node, here), node_labels(node, there)),
    decreases node,
{
    lemma_labels_anywhere(node.payload.items@, here, there);
    assert(same_keys(own_labels(node, here), own_labels(node, there)));
}

/// A label among those of items is among them wherever they stand.
proof fn lemma_label_among_anywhere(
    items: Seq<NodeItem>,
    here: Seq<NodeNameView>,
    there: Seq<NodeNameView>,
    label: Seq<char>,
)
    requires
        among(items_labels(items, here), label),
    ensures
        among(items_labels(items, there), label),
{
    lemma_labels_anywhere(items, here, there);
    let i = choose|i: int|
        0 <= i < items_labels(items, here).len() && (#[trigger] items_labels(items, here)[i]).0
            == label;
    assert(items_labels(items, there)[i].0 == label);
}

/// A label that is known stays known, and the labels in an element become known.
proof fn lemma_primary_makes_known(before: Progress, primary: Primary, label: Seq<char>)
    requires
        before.known.context.labels.contains_key(label) || has_label(primary, label),
    ensures
        before.after_primary(primary).known.context.labels.contains_key(label),
{
    reveal(Progress::after_primary);
    let labels = before.known.context.labels;
    match primary {
        Primary::Root(node) => {
            lemma_bind_all_keys(labels, node_labels(node, Seq::empty()), label);
        },
        Primary::ReferencedNode(node) => {
            let known = before.known.context.with_labels(referenced_labels(node));
            lemma_bind_all_keys(labels, referenced_labels(node), label);
            let path = match known.referenced_path(node.reference@.reference) {
                Some(path) => path,
                None => Seq::empty(),
            };
            if among(items_labels(node.payload.items@, Seq::empty()), label) {
                lemma_label_among_anywhere(node.payload.items@, Seq::empty(), path, label);
            }
            lemma_bind_all_keys(known.labels, items_labels(node.payload.items@, path), label);
        },
        _ => {},
    }
}

/// Wherever in a file a label is written, a reference to it leads somewhere once the
/// whole file is known.
pub proof fn lemma_written_label_resolves(
    start: Progress,
    primaries: Seq<Primary>,
    i: int,
    label: Seq<char>,
)
    requires
        0 <= i < primaries.len(),
        has_label(primaries[i], label),
    ensures
        start.after_primaries(primaries).known.context.resolves(ReferenceView::Label(label)),
    decreases primaries.len(),
{
    let before = start.after_primaries(primaries.drop_last());
    if i < primaries.len() - 1 {
        lemma_written_label_resolves(start, primaries.drop_last(), i, label);
    }
    lemma_primary_makes_known(before, primaries.last(), label);
}

/// Whether no finding is of a kind.
pub open spec fn lacks(findings: Seq<DiagnosticView>, kind: ErrorCode) -> bool {
    forall|i: int| 0 <= i < findings.len() ==> (#[trigger] findings[i]).kind != kind
}

/// What stands between the braces of a node.
spec fn payload_of(node: Arc<Node>) -> NodePayload {
    node.payload
}

/// What stands between the braces of a node that is given by a reference.
spec fn referenced_payload(node: Arc<ReferencedNode>) -> NodePayload {
    node.payload
}

/// The kinds of findings about the items of a node.
proof fn lemma_items_findings_kinds(
    items: Seq<NodeItem>,
    in_node: NodePayload,
    path: Seq<NodeNameView>,
    reports: bool,
    loads: Seq<LoadOutcome>,
    at: int,
    kind: ErrorCode,
)
    requires
        kind == ErrorCode::UnresolvedReference ==> !reports,
        kind != ErrorCode::IOError,
        kind != ErrorCode::NonStringInCompatible,
        kind != ErrorCode::ExpectedString,
        kind != ErrorCode::ExpectedU32,
    ensures
        lacks(items_findings(items, in_node, path, reports, loads, at), kind),
    decreases items,
{
    if items.len() > 0 {
        let here = at + items_requests(items.drop_last()).len();
        lemma_items_findings_kinds(items.drop_last(), in_node, path, reports, loads, at, kind);
        match items.last() {
            NodeItem::Property(property) => {
                lemma_values_findings_kinds(
                    property.values@,
                    in_node,
                    reports,
                    loads,
                    here,
                    kind,
                );
                lemma_non_string_kinds(property.values@, kind);
            },
            NodeItem::Node(node) => {
                lemma_items_findings_kinds(
                    node.payload.items@,
                    payload_of(node),
                    path.push(node.name.item@),
                    reports,
                    loads,
                    here,
                    kind,
                );
            },
            _ => {},
        }
    }
}

proof fn lemma_non_string_kinds(values: Seq<PropertyValue>, kind: ErrorCode)
    requires
        kind != ErrorCode::NonStringInCompatible,
    ensures
        lacks(non_string_findings(values), kind),
    decreases values.len(),
{
    if values.len() > 0 {
        lemma_non_string_kinds(values.drop_last(), kind);
    }
}

proof fn lemma_values_findings_kinds(
    values: Seq<PropertyValue>,
    in_node: NodePayload,
    reports: bool,
    loads: Seq<LoadOutcome>,
    at: int,
    kind: ErrorCode,
)
    requires
        kind == ErrorCode::UnresolvedReference ==> !reports,
        kind != ErrorCode::IOError,
    ensures
        lacks(values_findings(values, in_node, reports, loads, at), kind),
    decreases values.len(),
{
    if values.len() > 0 {
        lemma_values_findings_kinds(values.drop_last(), in_node, reports, loads, at, kind);
        lemma_local_findings_kinds(
            crate::tree::value_references(values.last()),
            in_node,
            reports,
            kind,
        );
    }
}

proof fn lemma_local_findings_kinds(
    references: Seq<PlacedReference>,
    in_node: NodePayload,
    reports: bool,
    kind: ErrorCode,
)
    requires
        kind == ErrorCode::UnresolvedReference ==> !reports,
    ensures
        lacks(local_findings(references, in_node, reports), kind),
    decreases references.len(),
{
    if references.len() > 0 {
        lemma_local_findings_kinds(references.drop_last(), in_node, reports, kind);
    }
}

proof fn lemma_deferred_findings_kinds(
    references: Seq<PlacedReference>,
    context: ContextView,
    reports: bool,
    kind: ErrorCode,
)
    requires
        kind == ErrorCode::UnresolvedReference ==> !reports,
    ensures
        lacks(deferred_findings(references, context, reports), kind),
    decreases references.len(),
{
    if references.len() > 0 {
        lemma_deferred_findings_kinds(references.drop_last(), context, reports, kind);
    }
}

/// What is lacking in two lists of findings is lacking in both together.
proof fn lemma_lacks_both(a: Seq<DiagnosticView>, b: Seq<DiagnosticView>, kind: ErrorCode)
    requires
        lacks(a, kind),
        lacks(b, kind),
    ensures
        lacks(a + b, kind),
{
}

/// A node that is given by a reference adds no finding of some kinds.
proof fn lemma_referenced_kinds(before: Progress, node: Arc<ReferencedNode>, kind: ErrorCode)
    requires
        lacks(before.file.diagnostics, kind),
        kind == ErrorCode::NonDtsV1 || (kind == ErrorCode::UnresolvedReference
            && before.file.file_type != FileType::DtSource),
    ensures
        lacks(before.after_referenced_node(node).file.diagnostics, kind),
{
    let known = AnalysisView {
        context: before.known.context.with_labels(referenced_labels(node)),
        ..before.known
    };
    let path = match known.context.referenced_path(node.reference@.reference) {
        Some(path) => path,
        None => Seq::empty(),
    };
    let found = (Progress { known, ..before }).after_reference(node.reference@).file;
    assert(lacks(found.diagnostics, kind));
    let findings = items_findings(
        node.payload.items@,
        referenced_payload(node),
        path,
        found.reports(),
        found.loads,
        found.next_load,
    );
    lemma_items_findings_kinds(
        node.payload.items@,
        referenced_payload(node),
        path,
        found.reports(),
        found.loads,
        found.next_load,
        kind,
    );
    lemma_lacks_both(found.diagnostics, findings, kind);
}

/// A directive that includes a file adds no finding of some kinds.
proof fn lemma_inclusion_kinds(before: Progress, inclusion: Include, kind: ErrorCode)
    requires
        lacks(before.file.diagnostics, kind),
        kind == ErrorCode::NonDtsV1 || kind == ErrorCode::UnresolvedReference,
    ensures
        lacks(before.after_inclusion(inclusion).file.diagnostics, kind),
{
}

/// An element of a file that is only a part of a device tree adds no finding about a
/// reference; no element adds one that the version of the format is missing.
proof fn lemma_primary_kinds(before: Progress, primary: Primary, kind: ErrorCode)
    requires
        lacks(before.file.diagnostics, kind),
        kind == ErrorCode::NonDtsV1 || (kind == ErrorCode::UnresolvedReference
            && before.file.file_type != FileType::DtSource),
    ensures
        lacks(before.after_primary(primary).file.diagnostics, kind),
{
    reveal(Progress::after_primary);
    match primary {
        Primary::Root(node) => {
            let findings = items_findings(
                node.payload.items@,
                payload_of(node),
                Seq::empty(),
                before.file.reports(),
                before.file.loads,
                before.file.next_load,
            );
            lemma_items_findings_kinds(
                node.payload.items@,
                payload_of(node),
                Seq::empty(),
                before.file.reports(),
                before.file.loads,
                before.file.next_load,
                kind,
            );
            lemma_lacks_both(before.file.diagnostics, findings, kind);
        },
        Primary::ReferencedNode(node) => {
            lemma_referenced_kinds(before, node, kind);
        },
        Primary::Directive(AnyDirective::Include(inclusion)) => {
            lemma_inclusion_kinds(before, inclusion, kind);
        },
        _ => {},
    }
}

/// Elements change neither the kind of the file nor what it is.
proof fn lemma_primary_keeps_type(before: Progress, primary: Primary)
    ensures
        before.after_primary(primary).file.file_type == before.file.file_type,
        before.after_primary(primary).file.source == before.file.source,
        before.after_primary(primary).file.dts_header_seen == (before.file.dts_header_seen
            || is_header(primary)),
{
    reveal(Progress::after_primary);
}

/// Whether an element of a file says the version of the format.
pub open spec fn is_header(primary: Primary) -> bool {
    primary matches Primary::Directive(AnyDirective::DtsHeader(_))
}

/// Whether one of the elements of a file says the version of the format.
pub open spec fn has_header(primaries: Seq<Primary>) -> bool {
    exists|i: int| 0 <= i < primaries.len() && is_header(#[trigger] primaries[i])
}

proof fn lemma_primaries_kinds(start: Progress, primaries: Seq<Primary>, kind: ErrorCode)
    requires
        lacks(start.file.diagnostics, kind),
        kind == ErrorCode::NonDtsV1 || (kind == ErrorCode::UnresolvedReference
            && start.file.file_type != FileType::DtSource),
    ensures
        lacks(start.after_primaries(primaries).file.diagnostics, kind),
        start.after_primaries(primaries).file.file_type == start.file.file_type,
        start.after_primaries(primaries).file.dts_header_seen == (start.file.dts_header_seen
            || has_header(primaries)),
    decreases primaries.len(),
{
    if primaries.len() > 0 {
        let fewer = primaries.drop_last();
        let before = start.after_primaries(fewer);
        lemma_primaries_kinds(start, fewer, kind);
        lemma_primary_kinds(before, primaries.last(), kind);
        lemma_primary_keeps_type(before, primaries.last());
        if has_header(fewer) {
            let i = choose|i: int| 0 <= i < fewer.len() && is_header(#[trigger] fewer[i]);
            assert(is_header(primaries[i]));
        }
        if has_header(primaries) {
            let i = choose|i: int| 0 <= i < primaries.len() && is_header(#[trigger] primaries[i]);
            if i < fewer.len() {
                assert(is_header(fewer[i]));
            }
        }
        assert(is_header(primaries.last()) ==> is_header(primaries[primaries.len() - 1]));
    }
}

/// In a file that is not a whole device tree, no reference is reported.
pub proof fn lemma_parts_report_no_reference(
    known: AnalysisView,
    file: DtsFile,
    file_type: FileType,
    project: ProjectView,
    loads: Seq<LoadOutcome>,
)
    requires
        file_type != FileType::DtSource,
    ensures
        lacks(
            file_end(known, file, file_type, project, loads).findings(),
            ErrorCode::UnresolvedReference,
        ),
{
    let start = file_start(known, file.source, file_type, project, loads);
    let end = file_end(known, file, file_type, project, loads);
    lemma_primaries_kinds(start, file.elements@, ErrorCode::UnresolvedReference);
    lemma_deferred_findings_kinds(
        end.file.deferred,
        end.known.context,
        end.file.reports(),
        ErrorCode::UnresolvedReference,
    );
}

/// A missing version of the format is reported if and only if the file is a whole
/// device tree and none of its elements says the version.
pub proof fn lemma_missing_header_reported(
    known: AnalysisView,
    file: DtsFile,
    file_type: FileType,
    project: ProjectView,
    loads: Seq<LoadOutcome>,
)
    ensures
        lacks(
            file_end(known, file, file_type, project, loads).findings(),
            ErrorCode::NonDtsV1,
        ) <==> (file_type != FileType::DtSource || has_header(file.elements@)),
{
    let start = file_start(known, file.source, file_type, project, loads);
    let end = file_end(known, file, file_type, project, loads);
    lemma_primaries_kinds(start, file.elements@, ErrorCode::NonDtsV1);
    lemma_deferred_findings_kinds(
        end.file.deferred,
        end.known.context,
        end.file.reports(),
        ErrorCode::NonDtsV1,
    );
    if file_type == FileType::DtSource && !has_header(file.elements@) {
        assert(end.findings()[end.file.diagnostics.len() as int].kind == ErrorCode::NonDtsV1);
    }
}

/// Whether one list of findings starts with another.
pub open spec fn starts_with(findings: Seq<DiagnosticView>, start: Seq<DiagnosticView>) -> bool {
    start.len() <= findings.len() && forall|i: int|
        0 <= i < start.len() ==> #[trigger] findings[i] == start[i]
}

/// An element takes back neither findings nor imports, and closes no circle of
/// imports.
proof fn lemma_primary_grows(before: Progress, primary: Primary)
    ensures
        starts_with(before.after_primary(primary).file.diagnostics, before.file.diagnostics),
        before.known.imports.subset_of(before.after_primary(primary).known.imports),
        acyclic(before.known.imports) ==> acyclic(before.after_primary(primary).known.imports),
        before.after_primary(primary).file.next_load == before.file.next_load
            + primary_requests(primary).len(),
        before.after_primary(primary).file.loads == before.file.loads,
{
    reveal(Progress::after_primary);
    if let Primary::Directive(AnyDirective::Include(inclusion)) = primary {
        if let Ok(loaded) = before.file.loads[before.file.next_load] {
            let importers = seq![before.file.source];
            if acyclic(before.known.imports) && !closes_circle(
                before.known.imports,
                loaded.path,
                importers,
            ) {
                lemma_import_keeps_acyclic(before.known.imports, loaded.path, importers);
            }
        }
    }
}

/// Elements take back neither findings nor imports, and close no circle of imports.
pub proof fn lemma_primaries_grow(start: Progress, primaries: Seq<Primary>)
    ensures
        starts_with(start.after_primaries(primaries).file.diagnostics, start.file.diagnostics),
        start.known.imports.subset_of(start.after_primaries(primaries).known.imports),
        acyclic(start.known.imports) ==> acyclic(start.after_primaries(primaries).known.imports),
        start.after_primaries(primaries).file.next_load == start.file.next_load
            + primaries_requests(primaries).len(),
        start.after_primaries(primaries).file.loads == start.file.loads,
        start.after_primaries(primaries).file.source == start.file.source,
    decreases primaries.len(),
{
    if primaries.len() > 0 {
        lemma_primaries_grow(start, primaries.drop_last());
        lemma_primary_grows(start.after_primaries(primaries.drop_last()), primaries.last());
        lemma_primary_keeps_type(start.after_primaries(primaries.drop_last()), primaries.last());
    }
}

/// The path by which the file was found that the element at `i` includes, if it
/// includes one and it was found.
pub open spec fn found_inclusion(
    primaries: Seq<Primary>,
    loads: Seq<LoadOutcome>,
    i: int,
) -> Option<FileId> {
    match primaries[i] {
        Primary::Directive(AnyDirective::Include(_)) => match loads[primaries_requests(
            primaries.take(i),
        ).len() as int] {
            Ok(loaded) => Some(loaded.path),
            Err(_) => None,
        },
        _ => None,
    }
}

/// Unless a circle is reported, each file that elements include and that was found is
/// noted as imported.
pub proof fn lemma_unreported_imports_noted(start: Progress, primaries: Seq<Primary>, i: int)
    requires
        start.file.next_load == 0,
        0 <= i < primaries.len(),
        lacks(
            start.after_primaries(primaries).file.diagnostics,
            ErrorCode::CyclicDependencyError,
        ),
    ensures
        found_inclusion(primaries, start.file.loads, i) matches Some(path)
            ==> start.after_primaries(primaries).known.imports.contains(
            (start.file.source, path),
        ),
    decreases primaries.len(),
{
    let fewer = primaries.drop_last();
    let before = start.after_primaries(fewer);
    let after = start.after_primaries(primaries);
    lemma_primaries_grow(start, fewer);
    lemma_primary_grows(before, primaries.last());
    if i < primaries.len() - 1 {
        assert(fewer.take(i) =~= primaries.take(i));
        assert forall|j: int| 0 <= j < before.file.diagnostics.len() implies (
        #[trigger] before.file.diagnostics[j]).kind != ErrorCode::CyclicDependencyError by {
            assert(after.file.diagnostics[j] == before.file.diagnostics[j]);
        }
        lemma_unreported_imports_noted(start, fewer, i);
    } else {
        assert(primaries.take(i) =~= fewer);
        if let Some(path) = found_inclusion(primaries, start.file.loads, i) {
            lemma_inclusion_noted_or_reported(before, primaries.last(), path);
        }
    }
}

/// A file that is included and was found is noted as imported, or a circle is reported.
proof fn lemma_inclusion_noted_or_reported(before: Progress, primary: Primary, path: FileId)
    requires
        primary matches Primary::Directive(AnyDirective::Include(_)),
        before.file.loads[before.file.next_load] matches Ok(loaded) && loaded.path == path,
    ensures
        ({
            let after = before.after_primary(primary);
            let met = before.file.diagnostics.len() as int;
            after.known.imports.contains((before.file.source, path)) || (
            after.file.diagnostics.len() > met && after.file.diagnostics[met].kind
                == ErrorCode::CyclicDependencyError)
        }),
{
    reveal(Progress::after_primary);
    let importers = seq![before.file.source];
    assert(importers[0] == before.file.source);
    assert(importers.contains(before.file.source));
    assert(import_edges(path, importers).contains((before.file.source, path)));
}

/// Whether no two nodes next to each other have the same name, at any depth.
pub open spec fn distinct_names(items: Seq<NodeItem>) -> bool
    decreases items,
{
    items.len() == 0 || {
        &&& distinct_names(items.drop_last())
        &&& match items.last() {
            NodeItem::Node(node) => distinct_names(node.payload.items@) && first_named(
                items.drop_last(),
                node.name.item@,
            ) is None,
            _ => true,
        }
    }
}

/// The node that names lead to from items, each name to a child of that name.
pub open spec fn node_below(items: Seq<NodeItem>, names: Seq<NodeNameView>) -> Option<Arc<Node>>
    decreases names.len(),
{
    if names.len() == 0 {
        None
    } else {
        match first_named(items, names[0]) {
            Some(node) => if names.len() == 1 {
                Some(node)
            } else {
                node_below(node.payload.items@, names.skip(1))
            },
            None => None,
        }
    }
}

/// Where names differ, the first node of a name is the last one, and names differ in it
/// too.
proof fn lemma_only_one_named(items: Seq<NodeItem>, name: NodeNameView)
    requires
        distinct_names(items),
    ensures
        first_named(items, name) == last_named(items, name),
        first_named(items, name) matches Some(node) ==> distinct_names(node.payload.items@)
            && node.name.item@ == name,
    decreases items.len(),
{
    if items.len() > 0 {
        lemma_only_one_named(items.drop_last(), name);
    }
}

/// Where names differ, a path that leads from name to name finds the same node as a
/// search does.
proof fn lemma_search_finds_node_below(payload: NodePayload, names: Seq<NodeNameView>)
    requires
        distinct_names(payload.items@),
        node_below(payload.items@, names) is Some,
    ensures
        child_along(payload, names) == node_below(payload.items@, names),
    decreases names.len(),
{
    lemma_only_one_named(payload.items@, names[0]);
    if names.len() > 1 {
        let node = first_named(payload.items@, names[0])->0;
        lemma_search_finds_node_below(payload_of(node), names.skip(1));
    }
}

/// The paths of the nodes in items start with the path of the items, and go on with the
/// name of one of them.
proof fn lemma_paths_below(
    items: Seq<NodeItem>,
    path: Seq<NodeNameView>,
    key: Seq<NodeNameView>,
)
    requires
        among(items_paths(items, path), key),
    ensures
        key.len() > path.len(),
        key.take(path.len() as int) == path,
        first_named(items, key[path.len() as int]) is Some,
    decreases items,
{
    if items.len() > 0 {
        let fewer = items.drop_last();
        let pairs = items_paths(items, path);
        let i = choose|i: int| 0 <= i < pairs.len() && (#[trigger] pairs[i]).0 == key;
        if i < items_paths(fewer, path).len() {
            assert(items_paths(fewer, path)[i].0 == key);
            lemma_paths_below(fewer, path, key);
        } else if let NodeItem::Node(node) = items.last() {
            let below = path.push(node.name.item@);
            let j = i - items_paths(fewer, path).len();
            assert(node_paths(node, below)[j].0 == key);
            lemma_node_paths_below(node, below, key);
            assert(key.take(path.len() as int) =~= key.take(below.len() as int).take(
                path.len() as int,
            ));
            assert(below.take(path.len() as int) =~= path);
            assert(key[path.len() as int] == key.take(below.len() as int)[path.len() as int]);
        }
    }
}

proof fn lemma_node_paths_below(node: Arc<Node>, path: Seq<NodeNameView>, key: Seq<NodeNameView>)
    requires
        among(node_paths(node, path), key),
    ensures
        key.len() >= path.len(),
        key.take(path.len() as int) == path,
    decreases node,
{
    let pairs = node_paths(node, path);
    let below = items_paths(node.payload.items@, path);
    let i = choose|i: int| 0 <= i < pairs.len() && (#[trigger] pairs[i]).0 == key;
    if i == 0 {
        assert(key.take(path.len() as int) =~= path);
    } else {
        assert(below[i - 1].0 == key);
        lemma_paths_below(node.payload.items@, path, key);
    }
}

/// Where names differ, each node is noted under the path that leads to it from name to
/// name.
proof fn lemma_node_is_noted(
    map: Map<Seq<NodeNameView>, Arc<Node>>,
    items: Seq<NodeItem>,
    path: Seq<NodeNameView>,
    names: Seq<NodeNameView>,
)
    requires
        distinct_names(items),
        node_below(items, names) is Some,
    ensures
        bind_all(map, items_paths(items, path)).contains_key(path + names),
        bind_all(map, items_paths(items, path))[path + names] == node_below(items, names)->0,
    decreases names.len(), items.len(),
{
    let fewer = items.drop_last();
    let key = path + names;
    let before = bind_all(map, items_paths(fewer, path));
    lemma_only_one_named(items, names[0]);
    match items.last() {
        NodeItem::Node(node) => {
            let below = path.push(node.name.item@);
            lemma_bind_all_more(map, items_paths(fewer, path), node_paths(node, below));
            if node.name.item@ == names[0] {
                let noted = before.insert(below, node);
                let one = seq![(below, node)];
                assert(one.drop_last() =~= Seq::empty());
                assert(bind_all(before, one.drop_last()) == before);
                assert(bind_all(before, one) == noted);
                lemma_bind_all_more(before, one, items_paths(node.payload.items@, below));
                if names.len() == 1 {
                    assert(key =~= below);
                    lemma_bind_all_keys(noted, items_paths(node.payload.items@, below), key);
                    if among(items_paths(node.payload.items@, below), key) {
                        lemma_paths_below(node.payload.items@, below, key);
                    }
                } else {
                    assert(key =~= below + names.skip(1));
                    lemma_node_is_noted(noted, node.payload.items@, below, names.skip(1));
                }
            } else {
                lemma_only_one_named(fewer, names[0]);
                lemma_node_is_noted(map, fewer, path, names);
                lemma_bind_all_keys(before, node_paths(node, below), key);
                if among(node_paths(node, below), key) {
                    lemma_node_paths_below(node, below, key);
                    assert(key.take(below.len() as int)[path.len() as int] == names[0]);
                }
            }
        },
        _ => {
            assert(items_paths(items, path) =~= items_paths(fewer, path));
            lemma_node_is_noted(map, fewer, path, names);
        },
    }
}

/// Where names differ, a path from the root and the same path from the root node lead to
/// the same node, once the root node has been analyzed: the one that is reached from
/// name to name.
pub proof fn lemma_paths_agree(known: AnalysisView, root: Arc<Node>, names: Seq<NodeNameView>)
    requires
        distinct_names(root.payload.items@),
        node_below(root.payload.items@, names) is Some,
    ensures
        ({
            let context = known.met_node(root, Seq::empty()).context;
            let node = node_below(root.payload.items@, names);
            &&& context.node_at(PathView::Absolute(names), ReferenceContext::Root) == node
            &&& context.node_at(PathView::DotRelative(names), ReferenceContext::Root) == node
        }),
{
    let nodes = known.context.nodes;
    let start: Seq<NodeNameView> = Seq::empty();
    let one = seq![(start, root)];
    let noted = nodes.insert(start, root);
    let below = items_paths(root.payload.items@, start);
    assert(one.drop_last() =~= Seq::empty());
    assert(bind_all(nodes, one.drop_last()) == nodes);
    assert(bind_all(nodes, one) == noted);
    lemma_bind_all_more(nodes, one, below);
    lemma_bind_all_keys(noted, below, start);
    if among(below, start) {
        lemma_paths_below(root.payload.items@, start, start);
    }
    lemma_node_is_noted(noted, root.payload.items@, start, names);
    assert(start + names =~= names);
    lemma_search_finds_node_below(payload_of(root), names);
}

/// Whether a finding is among others.
pub open spec fn is_found(findings: Seq<DiagnosticView>, finding: DiagnosticView) -> bool {
    exists|i: int| 0 <= i < findings.len() && #[trigger] findings[i] == finding
}

/// In a file in which references are reported, one that was left for later and leads
/// nowhere once all is known is reported.
pub proof fn lemma_dead_reference_reported(end: Progress, k: int)
    requires
        0 <= k < end.file.deferred.len(),
        end.file.reports(),
        !end.known.context.resolves(end.file.deferred[k].reference),
    ensures
        is_found(end.findings(), end.file.deferred[k].unresolved()),
{
    let late = deferred_findings(end.file.deferred, end.known.context, true);
    lemma_deferred_reported(end.file.deferred, end.known.context, k);
    let i = choose|i: int|
        0 <= i < late.len() && #[trigger] late[i] == end.file.deferred[k].unresolved();
    let at = end.findings().len() - late.len();
    assert(end.findings()[at + i] == late[i]);
}

proof fn lemma_deferred_reported(references: Seq<PlacedReference>, context: ContextView, k: int)
    requires
        0 <= k < references.len(),
        !context.resolves(references[k].reference),
    ensures
        is_found(deferred_findings(references, context, true), references[k].unresolved()),
    decreases references.len(),
{
    let fewer = references.drop_last();
    let findings = deferred_findings(references, context, true);
    if k < fewer.len() {
        lemma_deferred_reported(fewer, context, k);
        let before = deferred_findings(fewer, context, true);
        let i = choose|i: int|
            0 <= i < before.len() && #[trigger] before[i] == fewer[k].unresolved();
        assert(findings[i] == before[i]);
    } else {
        assert(findings[findings.len() - 1] == references[k].unresolved());
    }
}

} // verus!
