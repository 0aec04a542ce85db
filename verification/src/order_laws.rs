//! In which order things are found, and how often.
use crate::analysis::{deferred_findings, file_start, Analysis, AnalysisResult, Progress};
use crate::ast::{
    Cell, DtsFile, NodeItem, NodeNameView, NodePayload, Primary, Property, PropertyValue, Reference,
    WithToken,
};
use crate::context::{ContextView, LabeledView};
use crate::data::FileType;
use crate::diagnostics::{diagnostics_view, DiagnosticView};
use crate::error_codes::ErrorCode;
use crate::finding_laws::{
    after_some, body_of, has_plugin, has_version, is_missing_version, lemma_on_the_way,
    lemma_seen_on_the_way, lemma_step, said_of, source_of_value, span_of_value,
};
use crate::loader::LoadOutcome;
use crate::place_laws::{item_findings, payload_of};
use crate::project::Project;
use crate::tree::{
    cells_references, deferred, items_deferred, items_findings, items_labels, items_requests,
    local_findings, node_labels, non_string_findings, property_labels, value_findings,
    value_references, values_deferred, values_findings, values_requests, PlacedReference,
};
use std::sync::Arc;
use vstd::prelude::*;

verus! {

/// A reference and where it stands.
pub open spec fn placed_at(reference: WithToken<Reference>) -> PlacedReference {
    PlacedReference {
        reference: reference.item@,
        span: reference.token.span,
        source: reference.token.source,
    }
}

/// The reference that a cell is.
pub open spec fn cell_reference(cell: Cell) -> Option<PlacedReference> {
    match cell {
        Cell::Reference(reference) => Some(placed_at(reference)),
        _ => None,
    }
}

/// The references among cells are those of the cells, in order, each once.
pub proof fn lemma_cells_in_order(cells: Seq<Cell>)
    ensures
        cells_references(cells) == cells.filter_map(|cell: Cell| cell_reference(cell)),
    decreases cells.len(),
{
    if cells.len() > 0 {
        lemma_cells_in_order(cells.drop_last());
        assert(cells_references(cells) =~= cells.filter_map(
            |cell: Cell| cell_reference(cell),
        ));
    }
}

/// The references that are left for later are those that do not start at a node, in order,
/// each once.
pub proof fn lemma_deferred_in_order(references: Seq<PlacedReference>)
    ensures
        deferred(references) == references.filter(
            |reference: PlacedReference| !reference.is_local(),
        ),
    decreases references.len(),
{
    reveal(Seq::filter);
    if references.len() > 0 {
        lemma_deferred_in_order(references.drop_last());
        assert(deferred(references) =~= references.filter(
            |reference: PlacedReference| !reference.is_local(),
        ));
    }
}

/// The finding that a reference leads nowhere from the node in which it is written.
pub open spec fn dead_in(reference: PlacedReference, in_node: NodePayload) -> Option<
    DiagnosticView,
> {
    if reference.is_local() && !reference.resolves_in(in_node) {
        Some(dead_at(reference))
    } else {
        None
    }
}

/// The finding that a reference leads nowhere.
pub open spec fn dead_at(reference: PlacedReference) -> DiagnosticView {
    DiagnosticView {
        span: reference.span,
        source: reference.source,
        kind: ErrorCode::UnresolvedReference,
        message: "Reference cannot be resolved"@,
    }
}

/// The references that lead nowhere from a node are found in order, each once.
pub proof fn lemma_local_in_order(
    references: Seq<PlacedReference>,
    in_node: NodePayload,
    reports: bool,
)
    ensures
        local_findings(references, in_node, reports) == if reports {
            references.filter_map(|reference: PlacedReference| dead_in(reference, in_node))
        } else {
            Seq::empty()
        },
    decreases references.len(),
{
    if references.len() > 0 {
        lemma_local_in_order(references.drop_last(), in_node, reports);
        if reports {
            assert(local_findings(references, in_node, reports) =~= references.filter_map(
                |reference: PlacedReference| dead_in(reference, in_node),
            ));
        } else {
            assert(local_findings(references, in_node, reports) =~= Seq::empty());
        }
    }
}

/// The finding that a reference leads nowhere once all is known.
pub open spec fn dead_later(reference: PlacedReference, context: ContextView) -> Option<
    DiagnosticView,
> {
    if !context.resolves(reference.reference) {
        Some(dead_at(reference))
    } else {
        None
    }
}

/// The references that lead nowhere once all is known are found in order, each once.
pub proof fn lemma_late_in_order(
    references: Seq<PlacedReference>,
    context: ContextView,
    reports: bool,
)
    ensures
        deferred_findings(references, context, reports) == if reports {
            references.filter_map(|reference: PlacedReference| dead_later(reference, context))
        } else {
            Seq::empty()
        },
    decreases references.len(),
{
    if references.len() > 0 {
        lemma_late_in_order(references.drop_last(), context, reports);
        if reports {
            assert(deferred_findings(references, context, reports) =~= references.filter_map(
                |reference: PlacedReference| dead_later(reference, context),
            ));
        } else {
            assert(deferred_findings(references, context, reports) =~= Seq::empty());
        }
    }
}

/// The finding that a value is no string where strings are expected.
pub open spec fn no_string(value: PropertyValue) -> Option<DiagnosticView> {
    if value is String {
        None
    } else {
        Some(
            DiagnosticView {
                span: span_of_value(value),
                source: source_of_value(value),
                kind: ErrorCode::NonStringInCompatible,
                message: "compatible property should only contain strings"@,
            },
        )
    }
}

/// The values that are no strings are found in order, each once.
pub proof fn lemma_no_strings_in_order(values: Seq<PropertyValue>)
    ensures
        non_string_findings(values) == values.filter_map(|value: PropertyValue| no_string(value)),
    decreases values.len(),
{
    if values.len() > 0 {
        lemma_no_strings_in_order(values.drop_last());
        assert(non_string_findings(values) =~= values.filter_map(
            |value: PropertyValue| no_string(value),
        ));
    }
}

/// The findings about values are those about each value, in order.
pub proof fn lemma_values_in_order(
    values: Seq<PropertyValue>,
    in_node: NodePayload,
    reports: bool,
    loads: Seq<LoadOutcome>,
    at: int,
)
    ensures
        values_findings(values, in_node, reports, loads, at) == Seq::new(
            values.len(),
            |j: int|
                value_findings(
                    values[j],
                    in_node,
                    reports,
                    loads,
                    at + values_requests(values.take(j)).len(),
                ),
        ).flatten(),
        values_deferred(values) == Seq::new(
            values.len(),
            |j: int| deferred(value_references(values[j])),
        ).flatten(),
    decreases values.len(),
{
    let found = Seq::new(
        values.len(),
        |j: int|
            value_findings(
                values[j],
                in_node,
                reports,
                loads,
                at + values_requests(values.take(j)).len(),
            ),
    );
    let left = Seq::new(values.len(), |j: int| deferred(value_references(values[j])));
    if values.len() > 0 {
        let fewer = values.drop_last();
        lemma_values_in_order(fewer, in_node, reports, loads, at);
        let found_before = Seq::new(
            fewer.len(),
            |j: int|
                value_findings(
                    fewer[j],
                    in_node,
                    reports,
                    loads,
                    at + values_requests(fewer.take(j)).len(),
                ),
        );
        assert forall|j: int| 0 <= j < fewer.len() implies fewer.take(j) == #[trigger] values.take(
            j,
        ) by {
            assert(fewer.take(j) =~= values.take(j));
        }
        assert(values.take(values.len() - 1) =~= fewer);
        assert(found =~= found_before.push(found.last()));
        found_before.lemma_flatten_push(found.last());
        let left_before = Seq::new(
            fewer.len(),
            |j: int| deferred(value_references(fewer[j])),
        );
        assert(left =~= left_before.push(left.last()));
        left_before.lemma_flatten_push(left.last());
    } else {
        assert(found.flatten() =~= Seq::empty());
        assert(left.flatten() =~= Seq::empty());
    }
}

/// What an item leaves for later: what its values leave, or what is in the node leaves.
pub open spec fn left_of_item(item: NodeItem) -> Seq<PlacedReference> {
    match item {
        NodeItem::Property(property) => values_deferred(property.values@),
        NodeItem::Node(node) => items_deferred(node.payload.items@),
        _ => Seq::empty(),
    }
}

/// The findings about items are those about each item, in order, and so are the references
/// that are left for later.
pub proof fn lemma_items_in_order(
    items: Seq<NodeItem>,
    in_node: NodePayload,
    path: Seq<NodeNameView>,
    reports: bool,
    loads: Seq<LoadOutcome>,
    at: int,
)
    ensures
        items_findings(items, in_node, path, reports, loads, at) == Seq::new(
            items.len(),
            |i: int|
                item_findings(
                    items[i],
                    in_node,
                    path,
                    reports,
                    loads,
                    at + items_requests(items.take(i)).len(),
                ),
        ).flatten(),
        items_deferred(items) == Seq::new(items.len(), |i: int| left_of_item(items[i])).flatten(),
    decreases items.len(),
{
    let found = Seq::new(
        items.len(),
        |i: int|
            item_findings(
                items[i],
                in_node,
                path,
                reports,
                loads,
                at + items_requests(items.take(i)).len(),
            ),
    );
    let left = Seq::new(items.len(), |i: int| left_of_item(items[i]));
    if items.len() > 0 {
        let fewer = items.drop_last();
        lemma_items_in_order(fewer, in_node, path, reports, loads, at);
        let found_before = Seq::new(
            fewer.len(),
            |i: int|
                item_findings(
                    fewer[i],
                    in_node,
                    path,
                    reports,
                    loads,
                    at + items_requests(fewer.take(i)).len(),
                ),
        );
        assert forall|i: int| 0 <= i < fewer.len() implies fewer.take(i) == #[trigger] items.take(
            i,
        ) by {
            assert(fewer.take(i) =~= items.take(i));
        }
        assert(items.take(items.len() - 1) =~= fewer);
        assert(found =~= found_before.push(found.last()));
        found_before.lemma_flatten_push(found.last());
        let left_before = Seq::new(fewer.len(), |i: int| left_of_item(fewer[i]));
        assert(left =~= left_before.push(left.last()));
        left_before.lemma_flatten_push(left.last());
    } else {
        assert(found.flatten() =~= Seq::empty());
        assert(left.flatten() =~= Seq::empty());
    }
}

/// What is found on the way through elements is what each of them adds, in order.
proof fn lemma_elements_in_order(start: Progress, primaries: Seq<Primary>)
    requires
        start.file.diagnostics.len() == 0,
        start.file.deferred.len() == 0,
    ensures
        start.after_primaries(primaries).file.diagnostics == Seq::new(
            primaries.len(),
            |k: int| said_of(after_some(start, primaries, k), primaries[k]),
        ).flatten(),
        start.after_primaries(primaries).file.deferred == Seq::new(
            primaries.len(),
            |k: int| left_of_element(primaries[k]),
        ).flatten(),
    decreases primaries.len(),
{
    let found = Seq::new(
        primaries.len(),
        |k: int| said_of(after_some(start, primaries, k), primaries[k]),
    );
    let left = Seq::new(primaries.len(), |k: int| left_of_element(primaries[k]));
    if primaries.len() > 0 {
        let fewer = primaries.drop_last();
        lemma_elements_in_order(start, fewer);
        lemma_step(start.after_primaries(fewer), primaries.last());
        let found_before = Seq::new(
            fewer.len(),
            |k: int| said_of(after_some(start, fewer, k), fewer[k]),
        );
        assert forall|k: int| 0 <= k < fewer.len() implies #[trigger] found[k]
            == found_before[k] by {
            assert(fewer.take(k) =~= primaries.take(k));
        }
        assert(primaries.take(primaries.len() - 1) =~= fewer);
        assert(found =~= found_before.push(found.last()));
        found_before.lemma_flatten_push(found.last());
        let left_before = Seq::new(fewer.len(), |k: int| left_of_element(fewer[k]));
        assert(left =~= left_before.push(left.last()));
        left_before.lemma_flatten_push(left.last());
    } else {
        assert(start.file.diagnostics =~= Seq::empty());
        assert(start.file.deferred =~= Seq::empty());
        assert(found.flatten() =~= Seq::empty());
        assert(left.flatten() =~= Seq::empty());
    }
}

/// What an element of a file leaves for later: what is in the node that it is leaves.
pub open spec fn left_of_element(primary: Primary) -> Seq<PlacedReference> {
    match body_of(primary) {
        Some(body) => items_deferred(body.items@),
        None => Seq::empty(),
    }
}

/// The findings about a file are what its elements add, one element after the other; then
/// that the version of the format is missing, if it is; and then the references that lead
/// nowhere once the whole file is known, in the order in which they are written.
pub proof fn lemma_findings_in_order(
    analysis: &mut Analysis,
    file: &DtsFile,
    file_type: FileType,
    project: &Project,
    loads: &[LoadOutcome],
    r: AnalysisResult,
)
    requires
        call_ensures(Analysis::analyze_file, (analysis, file, file_type, project, loads), r),
    ensures
        ({
            let primaries = file.elements@;
            let start = file_start(old(analysis)@, file.source, file_type, project@, loads@);
            let said = Seq::new(
                primaries.len(),
                |k: int| said_of(after_some(start, primaries, k), primaries[k]),
            ).flatten();
            let left = Seq::new(
                primaries.len(),
                |k: int| left_of_element(primaries[k]),
            ).flatten();
            let late = if file_type == FileType::DtSource && !has_plugin(primaries) {
                left.filter_map(
                    |reference: PlacedReference|
                        dead_later(reference, final(analysis)@.context),
                )
            } else {
                Seq::empty()
            };
            &&& file_type == FileType::DtSource && !has_version(primaries) ==> exists|
                missing: DiagnosticView,
            | #[trigger]
                is_missing_version(primaries, file.source, file_type, missing)
                    && diagnostics_view(r.diagnostics@) == said + seq![missing] + late
            &&& file_type != FileType::DtSource || has_version(primaries) ==> diagnostics_view(
                r.diagnostics@,
            ) == said + late
        }),
{
    let primaries = file.elements@;
    let start = file_start(old(analysis)@, file.source, file_type, project@, loads@);
    let end = start.after_primaries(primaries);
    let context = final(analysis)@.context;
    lemma_elements_in_order(start, primaries);
    lemma_on_the_way(start, primaries);
    lemma_seen_on_the_way(start, primaries);
    lemma_late_in_order(end.file.deferred, end.known.context, end.file.reports());
    let missing = crate::analysis::no_header_finding(file.source);
    if file_type == FileType::DtSource && !has_version(primaries) {
        assert(is_missing_version(primaries, file.source, file_type, missing));
    } else {
        assert(end.file.diagnostics + Seq::<DiagnosticView>::empty() =~= end.file.diagnostics);
    }
}

/// The labels that an item puts in: that of a property, or those in a node at its path.
pub open spec fn labels_of_item(item: NodeItem, path: Seq<NodeNameView>) -> Seq<
    (Seq<char>, LabeledView),
> {
    match item {
        NodeItem::Property(property) => match property.label {
            Some(label) => seq![(label.item@, LabeledView::Property(property))],
            None => Seq::empty(),
        },
        NodeItem::Node(node) => {
            let below = path.push(node.name.item@);
            (match node.label {
                Some(label) => seq![(label.item@, LabeledView::Node(node, below))],
                None => Seq::empty(),
            }) + items_labels(node.payload.items@, below)
        },
        _ => Seq::empty(),
    }
}

/// The labels in items are those at each item and in it, in order, that of a node before
/// those in it.
pub proof fn lemma_labels_in_order(items: Seq<NodeItem>, path: Seq<NodeNameView>)
    ensures
        items_labels(items, path) == Seq::new(
            items.len(),
            |i: int| labels_of_item(items[i], path),
        ).flatten(),
    decreases items.len(),
{
    let labels = Seq::new(items.len(), |i: int| labels_of_item(items[i], path));
    if items.len() > 0 {
        let fewer = items.drop_last();
        lemma_labels_in_order(fewer, path);
        let before = Seq::new(fewer.len(), |i: int| labels_of_item(fewer[i], path));
        assert(labels =~= before.push(labels.last()));
        before.lemma_flatten_push(labels.last());
        match items.last() {
            NodeItem::Property(property) => {
                assert(labels.last() =~= property_labels(property));
            },
            NodeItem::Node(node) => {
                assert(labels.last() =~= node_labels(node, path.push(node.name.item@)));
            },
            _ => {},
        }
        assert(items_labels(items, path) =~= items_labels(fewer, path) + labels.last());
    } else {
        assert(labels.flatten() =~= Seq::empty());
    }
}

} // verus!
