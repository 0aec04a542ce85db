//! Where things are written in a node, and that none of them is passed over.
use crate::ast::{
    Cell, Node, NodeItem, NodeNameView, NodePayload, Property, PropertyValue, Reference, WithToken,
};
use crate::context::LabeledView;
use crate::diagnostics::DiagnosticView;
use crate::loader::LoadOutcome;
use crate::tree::{
    cells_references, deferred, items_deferred, items_findings, items_labels, items_paths,
    items_requests, local_findings, node_labels, node_paths, property_findings, schema_findings,
    value_findings, value_references, value_requests, values_deferred, values_findings,
    values_requests, PlacedReference,
};
use std::sync::Arc;
use vstd::prelude::*;

verus! {

/// What stands between the braces of the node that places lead to: each is the place of a
/// node among the items of the one before.
pub open spec fn payload_at(payload: NodePayload, places: Seq<int>) -> Option<NodePayload>
    decreases places.len(),
{
    if places.len() == 0 {
        Some(payload)
    } else if 0 <= places[0] < payload.items@.len() {
        match payload.items@[places[0]] {
            NodeItem::Node(node) => payload_at(node.payload, places.skip(1)),
            _ => None,
        }
    } else {
        None
    }
}

/// The path of the node that places lead to, given the path where they start.
pub open spec fn path_at(
    path: Seq<NodeNameView>,
    payload: NodePayload,
    places: Seq<int>,
) -> Seq<NodeNameView>
    decreases places.len(),
{
    if places.len() == 0 {
        path
    } else {
        match payload.items@[places[0]] {
            NodeItem::Node(node) => path_at(
                path.push(node.name.item@),
                node.payload,
                places.skip(1),
            ),
            _ => path,
        }
    }
}

/// How many files have been named before the node that places lead to, given how many have
/// been where they start.
pub open spec fn named_before(count: int, payload: NodePayload, places: Seq<int>) -> int
    decreases places.len(),
{
    if places.len() == 0 {
        count
    } else {
        let here = count + items_requests(payload.items@.take(places[0])).len();
        match payload.items@[places[0]] {
            NodeItem::Node(node) => named_before(here, node.payload, places.skip(1)),
            _ => here,
        }
    }
}

/// The item at a place among the items of the node that places lead to.
pub open spec fn item_at(payload: NodePayload, places: Seq<int>, i: int) -> Option<NodeItem> {
    match payload_at(payload, places) {
        Some(inner) => if 0 <= i < inner.items@.len() {
            Some(inner.items@[i])
        } else {
            None
        },
        None => None,
    }
}

/// The property at a place among the items of the node that places lead to.
pub open spec fn property_at(payload: NodePayload, places: Seq<int>, i: int) -> Option<
    Arc<Property>,
> {
    match item_at(payload, places, i) {
        Some(NodeItem::Property(property)) => Some(property),
        _ => None,
    }
}

/// The reference that a value is, or that stands in one of its cells.
pub open spec fn reference_in(value: PropertyValue, cell: int) -> Option<WithToken<Reference>> {
    match value {
        PropertyValue::Reference(reference) => Some(reference),
        PropertyValue::Cells(_, cells, _) => if 0 <= cell < cells@.len() {
            match cells@[cell] {
                Cell::Reference(reference) => Some(reference),
                _ => None,
            }
        } else {
            None
        },
        _ => None,
    }
}

pub(crate) open spec fn payload_of(node: Arc<Node>) -> NodePayload {
    node.payload
}

/// What is in one of two lists is in both together.
pub(crate) proof fn lemma_in_both<T>(a: Seq<T>, b: Seq<T>, x: T)
    ensures
        (a + b).contains(x) == (a.contains(x) || b.contains(x)),
{
    if a.contains(x) {
        let i = choose|i: int| 0 <= i < a.len() && a[i] == x;
        assert((a + b)[i] == x);
    }
    if b.contains(x) {
        let i = choose|i: int| 0 <= i < b.len() && b[i] == x;
        assert((a + b)[a.len() + i] == x);
    }
    if (a + b).contains(x) {
        let i = choose|i: int| 0 <= i < (a + b).len() && (a + b)[i] == x;
        if i < a.len() {
            assert(a[i] == x);
        } else {
            assert(b[i - a.len()] == x);
        }
    }
}

/// The findings about an item of a node.
pub open spec fn item_findings(
    item: NodeItem,
    in_node: NodePayload,
    path: Seq<NodeNameView>,
    reports: bool,
    loads: Seq<LoadOutcome>,
    at: int,
) -> Seq<DiagnosticView> {
    match item {
        NodeItem::Property(property) => property_findings(
            *property,
            in_node,
            path,
            reports,
            loads,
            at,
        ),
        NodeItem::Node(node) => items_findings(
            node.payload.items@,
            node.payload,
            path.push(node.name.item@),
            reports,
            loads,
            at,
        ),
        _ => Seq::empty(),
    }
}

/// What is found of an item is found of the items that it is one of.
proof fn lemma_item_findings(
    items: Seq<NodeItem>,
    in_node: NodePayload,
    path: Seq<NodeNameView>,
    reports: bool,
    loads: Seq<LoadOutcome>,
    at: int,
    i: int,
    finding: DiagnosticView,
)
    requires
        0 <= i < items.len(),
        item_findings(
            items[i],
            in_node,
            path,
            reports,
            loads,
            at + items_requests(items.take(i)).len(),
        ).contains(finding),
    ensures
        items_findings(items, in_node, path, reports, loads, at).contains(finding),
    decreases items.len(),
{
    let fewer = items.drop_last();
    let here = at + items_requests(fewer).len();
    lemma_in_both(
        items_findings(fewer, in_node, path, reports, loads, at),
        item_findings(items.last(), in_node, path, reports, loads, here),
        finding,
    );
    if i < fewer.len() {
        assert(fewer.take(i) =~= items.take(i));
        lemma_item_findings(fewer, in_node, path, reports, loads, at, i, finding);
    } else {
        assert(items.take(i) =~= fewer);
    }
}

/// What is found of items is found of one of them.
proof fn lemma_some_item_findings(
    items: Seq<NodeItem>,
    in_node: NodePayload,
    path: Seq<NodeNameView>,
    reports: bool,
    loads: Seq<LoadOutcome>,
    at: int,
    finding: DiagnosticView,
) -> (i: int)
    requires
        items_findings(items, in_node, path, reports, loads, at).contains(finding),
    ensures
        0 <= i < items.len(),
        item_findings(
            items[i],
            in_node,
            path,
            reports,
            loads,
            at + items_requests(items.take(i)).len(),
        ).contains(finding),
    decreases items.len(),
{
    if items.len() == 0 {
        0
    } else {
        let fewer = items.drop_last();
        let here = at + items_requests(fewer).len();
        lemma_in_both(
            items_findings(fewer, in_node, path, reports, loads, at),
            item_findings(items.last(), in_node, path, reports, loads, here),
            finding,
        );
        if items_findings(fewer, in_node, path, reports, loads, at).contains(finding) {
            let i = lemma_some_item_findings(fewer, in_node, path, reports, loads, at, finding);
            assert(fewer.take(i) =~= items.take(i));
            i
        } else {
            assert(items.take(items.len() - 1) =~= fewer);
            items.len() - 1
        }
    }
}

/// What is found of the node that places lead to is found of the one where they start.
pub(crate) proof fn lemma_findings_below(
    payload: NodePayload,
    places: Seq<int>,
    path: Seq<NodeNameView>,
    reports: bool,
    loads: Seq<LoadOutcome>,
    at: int,
    finding: DiagnosticView,
)
    requires
        payload_at(payload, places) matches Some(inner) && items_findings(
            inner.items@,
            inner,
            path_at(path, payload, places),
            reports,
            loads,
            named_before(at, payload, places),
        ).contains(finding),
    ensures
        items_findings(payload.items@, payload, path, reports, loads, at).contains(finding),
    decreases places.len(),
{
    if places.len() > 0 {
        let here = at + items_requests(payload.items@.take(places[0])).len();
        if let NodeItem::Node(node) = payload.items@[places[0]] {
            lemma_findings_below(
                payload_of(node),
                places.skip(1),
                path.push(node.name.item@),
                reports,
                loads,
                here,
                finding,
            );
            lemma_item_findings(
                payload.items@,
                payload,
                path,
                reports,
                loads,
                at,
                places[0],
                finding,
            );
        }
    }
}

/// What is found of a property is found of every node that it is written in.
pub(crate) proof fn lemma_property_findings(
    payload: NodePayload,
    places: Seq<int>,
    i: int,
    path: Seq<NodeNameView>,
    reports: bool,
    loads: Seq<LoadOutcome>,
    at: int,
    finding: DiagnosticView,
)
    requires
        property_at(payload, places, i) matches Some(property) && property_findings(
            *property,
            payload_at(payload, places)->0,
            path_at(path, payload, places),
            reports,
            loads,
            named_before(at, payload, places) + items_requests(
                (payload_at(payload, places)->0).items@.take(i),
            ).len(),
        ).contains(finding),
    ensures
        items_findings(payload.items@, payload, path, reports, loads, at).contains(finding),
{
    let inner = payload_at(payload, places)->0;
    lemma_item_findings(
        inner.items@,
        inner,
        path_at(path, payload, places),
        reports,
        loads,
        named_before(at, payload, places),
        i,
        finding,
    );
    lemma_findings_below(payload, places, path, reports, loads, at, finding);
}

/// What is found of a node is found of a property that is written in it.
pub(crate) proof fn lemma_some_property_findings(
    payload: NodePayload,
    path: Seq<NodeNameView>,
    reports: bool,
    loads: Seq<LoadOutcome>,
    at: int,
    finding: DiagnosticView,
) -> (r: (Seq<int>, int))
    requires
        items_findings(payload.items@, payload, path, reports, loads, at).contains(finding),
    ensures
        property_at(payload, r.0, r.1) matches Some(property) && property_findings(
            *property,
            payload_at(payload, r.0)->0,
            path_at(path, payload, r.0),
            reports,
            loads,
            named_before(at, payload, r.0) + items_requests(
                (payload_at(payload, r.0)->0).items@.take(r.1),
            ).len(),
        ).contains(finding),
    decreases payload,
{
    let i = lemma_some_item_findings(
        payload.items@,
        payload,
        path,
        reports,
        loads,
        at,
        finding,
    );
    let here = at + items_requests(payload.items@.take(i)).len();
    match payload.items@[i] {
        NodeItem::Property(property) => (Seq::empty(), i),
        NodeItem::Node(node) => {
            let below = lemma_some_property_findings(
                payload_of(node),
                path.push(node.name.item@),
                reports,
                loads,
                here,
                finding,
            );
            let places = seq![i] + below.0;
            assert(places.skip(1) =~= below.0);
            (places, below.1)
        },
        _ => (Seq::empty(), 0),
    }
}

/// What is found of a value is found of the values that it is one of.
pub(crate) proof fn lemma_value_findings(
    values: Seq<PropertyValue>,
    in_node: NodePayload,
    reports: bool,
    loads: Seq<LoadOutcome>,
    at: int,
    j: int,
    finding: DiagnosticView,
)
    requires
        0 <= j < values.len(),
        value_findings(
            values[j],
            in_node,
            reports,
            loads,
            at + values_requests(values.take(j)).len(),
        ).contains(finding),
    ensures
        values_findings(values, in_node, reports, loads, at).contains(finding),
    decreases values.len(),
{
    let fewer = values.drop_last();
    lemma_in_both(
        values_findings(fewer, in_node, reports, loads, at),
        value_findings(
            values.last(),
            in_node,
            reports,
            loads,
            at + values_requests(fewer).len(),
        ),
        finding,
    );
    if j < fewer.len() {
        assert(fewer.take(j) =~= values.take(j));
        lemma_value_findings(fewer, in_node, reports, loads, at, j, finding);
    } else {
        assert(values.take(j) =~= fewer);
    }
}

/// What is found of values is found of one of them.
pub(crate) proof fn lemma_some_value_findings(
    values: Seq<PropertyValue>,
    in_node: NodePayload,
    reports: bool,
    loads: Seq<LoadOutcome>,
    at: int,
    finding: DiagnosticView,
) -> (j: int)
    requires
        values_findings(values, in_node, reports, loads, at).contains(finding),
    ensures
        0 <= j < values.len(),
        value_findings(
            values[j],
            in_node,
            reports,
            loads,
            at + values_requests(values.take(j)).len(),
        ).contains(finding),
    decreases values.len(),
{
    if values.len() == 0 {
        0
    } else {
        let fewer = values.drop_last();
        lemma_in_both(
            values_findings(fewer, in_node, reports, loads, at),
            value_findings(
                values.last(),
                in_node,
                reports,
                loads,
                at + values_requests(fewer).len(),
            ),
            finding,
        );
        if values_findings(fewer, in_node, reports, loads, at).contains(finding) {
            let j = lemma_some_value_findings(fewer, in_node, reports, loads, at, finding);
            assert(fewer.take(j) =~= values.take(j));
            j
        } else {
            assert(values.take(values.len() - 1) =~= fewer);
            values.len() - 1
        }
    }
}

/// The reference in each cell is among the references in the cells.
proof fn lemma_cell_reference(cells: Seq<Cell>, cell: int)
    requires
        0 <= cell < cells.len(),
    ensures
        cells[cell] matches Cell::Reference(reference) ==> cells_references(cells).contains(
            reference@,
        ),
    decreases cells.len(),
{
    if let Cell::Reference(reference) = cells[cell] {
        let fewer = cells.drop_last();
        let last = match cells.last() {
            Cell::Reference(reference) => seq![reference@],
            _ => Seq::empty(),
        };
        lemma_in_both(cells_references(fewer), last, reference@);
        if cell < fewer.len() {
            lemma_cell_reference(fewer, cell);
        } else {
            assert(last[0] == reference@);
        }
    }
}

/// Each reference among those in cells stands in one of them.
proof fn lemma_some_cell_reference(cells: Seq<Cell>, found: PlacedReference) -> (cell: int)
    requires
        cells_references(cells).contains(found),
    ensures
        0 <= cell < cells.len(),
        cells[cell] matches Cell::Reference(reference) && reference@ == found,
    decreases cells.len(),
{
    if cells.len() == 0 {
        0
    } else {
        let fewer = cells.drop_last();
        let last = match cells.last() {
            Cell::Reference(reference) => seq![reference@],
            _ => Seq::empty(),
        };
        lemma_in_both(cells_references(fewer), last, found);
        if cells_references(fewer).contains(found) {
            lemma_some_cell_reference(fewer, found)
        } else {
            cells.len() - 1
        }
    }
}

/// The reference that a value is, or that stands in one of its cells, is among the
/// references in the value.
pub(crate) proof fn lemma_reference_in(value: PropertyValue, cell: int)
    ensures
        reference_in(value, cell) matches Some(reference) ==> value_references(value).contains(
            reference@,
        ),
{
    match value {
        PropertyValue::Reference(reference) => {
            assert(seq![reference@][0] == reference@);
        },
        PropertyValue::Cells(_, cells, _) => {
            if 0 <= cell < cells@.len() {
                lemma_cell_reference(cells@, cell);
            }
        },
        _ => {},
    }
}

/// Each reference among those in a value is the value, or stands in one of its cells.
pub(crate) proof fn lemma_some_reference_in(value: PropertyValue, found: PlacedReference) -> (cell:
    int)
    requires
        value_references(value).contains(found),
    ensures
        reference_in(value, cell) matches Some(reference) && reference@ == found,
{
    match value {
        PropertyValue::Cells(_, cells, _) => lemma_some_cell_reference(cells@, found),
        _ => 0,
    }
}

/// A reference is left for later exactly if it does not start at the node in which it is
/// written.
pub(crate) proof fn lemma_deferred_in(references: Seq<PlacedReference>, reference: PlacedReference)
    ensures
        deferred(references).contains(reference) == (references.contains(reference)
            && !reference.is_local()),
    decreases references.len(),
{
    if references.len() > 0 {
        let fewer = references.drop_last();
        let last = if references.last().is_local() {
            Seq::empty()
        } else {
            seq![references.last()]
        };
        lemma_deferred_in(fewer, reference);
        lemma_in_both(deferred(fewer), last, reference);
        assert(fewer + seq![references.last()] =~= references);
        lemma_in_both(fewer, seq![references.last()], reference);
        assert(seq![references.last()][0] == references.last());
        if !references.last().is_local() {
            assert(last[0] == references.last());
        }
    }
}

/// A reference that starts at the node in which it is written is reported if it leads
/// nowhere there.
pub(crate) proof fn lemma_local_found(
    references: Seq<PlacedReference>,
    in_node: NodePayload,
    reference: PlacedReference,
)
    requires
        references.contains(reference),
        reference.is_local(),
        !reference.resolves_in(in_node),
    ensures
        local_findings(references, in_node, true).contains(reference.unresolved()),
    decreases references.len(),
{
    if references.len() > 0 {
        let fewer = references.drop_last();
        let last = references.last();
        let more = if last.is_local() && !last.resolves_in(in_node) {
            seq![last.unresolved()]
        } else {
            Seq::empty()
        };
        assert(fewer + seq![last] =~= references);
        lemma_in_both(fewer, seq![last], reference);
        lemma_in_both(local_findings(fewer, in_node, true), more, reference.unresolved());
        if fewer.contains(reference) {
            lemma_local_found(fewer, in_node, reference);
        } else {
            assert(more[0] == reference.unresolved());
        }
    }
}

/// Each finding about references that start at the node in which they are written is of
/// one of them that leads nowhere there.
pub(crate) proof fn lemma_some_local_found(
    references: Seq<PlacedReference>,
    in_node: NodePayload,
    reports: bool,
    finding: DiagnosticView,
) -> (reference: PlacedReference)
    requires
        local_findings(references, in_node, reports).contains(finding),
    ensures
        references.contains(reference),
        reports,
        reference.is_local(),
        !reference.resolves_in(in_node),
        finding == reference.unresolved(),
    decreases references.len(),
{
    if references.len() == 0 {
        arbitrary()
    } else {
        let fewer = references.drop_last();
        let last = references.last();
        let more = if reports && last.is_local() && !last.resolves_in(in_node) {
            seq![last.unresolved()]
        } else {
            Seq::empty()
        };
        assert(fewer + seq![last] =~= references);
        lemma_in_both(local_findings(fewer, in_node, reports), more, finding);
        if local_findings(fewer, in_node, reports).contains(finding) {
            let reference = lemma_some_local_found(fewer, in_node, reports, finding);
            lemma_in_both(fewer, seq![last], reference);
            reference
        } else {
            assert(seq![last][0] == last);
            lemma_in_both(fewer, seq![last], last);
            last
        }
    }
}

/// What is left for later of a value is left of the values that it is one of.
proof fn lemma_values_deferred(values: Seq<PropertyValue>, j: int, reference: PlacedReference)
    requires
        0 <= j < values.len(),
        deferred(value_references(values[j])).contains(reference),
    ensures
        values_deferred(values).contains(reference),
    decreases values.len(),
{
    let fewer = values.drop_last();
    lemma_in_both(
        values_deferred(fewer),
        deferred(value_references(values.last())),
        reference,
    );
    if j < fewer.len() {
        lemma_values_deferred(fewer, j, reference);
    }
}

proof fn lemma_some_values_deferred(values: Seq<PropertyValue>, reference: PlacedReference) -> (j:
    int)
    requires
        values_deferred(values).contains(reference),
    ensures
        0 <= j < values.len(),
        deferred(value_references(values[j])).contains(reference),
    decreases values.len(),
{
    if values.len() == 0 {
        0
    } else {
        let fewer = values.drop_last();
        lemma_in_both(
            values_deferred(fewer),
            deferred(value_references(values.last())),
            reference,
        );
        if values_deferred(fewer).contains(reference) {
            lemma_some_values_deferred(fewer, reference)
        } else {
            values.len() - 1
        }
    }
}

spec fn item_deferred(item: NodeItem) -> Seq<PlacedReference> {
    match item {
        NodeItem::Property(property) => values_deferred(property.values@),
        NodeItem::Node(node) => items_deferred(node.payload.items@),
        _ => Seq::empty(),
    }
}

proof fn lemma_item_deferred(items: Seq<NodeItem>, i: int, reference: PlacedReference)
    requires
        0 <= i < items.len(),
        item_deferred(items[i]).contains(reference),
    ensures
        items_deferred(items).contains(reference),
    decreases items.len(),
{
    let fewer = items.drop_last();
    lemma_in_both(items_deferred(fewer), item_deferred(items.last()), reference);
    if i < fewer.len() {
        lemma_item_deferred(fewer, i, reference);
    }
}

proof fn lemma_some_item_deferred(items: Seq<NodeItem>, reference: PlacedReference) -> (i: int)
    requires
        items_deferred(items).contains(reference),
    ensures
        0 <= i < items.len(),
        item_deferred(items[i]).contains(reference),
    decreases items.len(),
{
    if items.len() == 0 {
        0
    } else {
        let fewer = items.drop_last();
        lemma_in_both(items_deferred(fewer), item_deferred(items.last()), reference);
        if items_deferred(fewer).contains(reference) {
            lemma_some_item_deferred(fewer, reference)
        } else {
            items.len() - 1
        }
    }
}

proof fn lemma_deferred_below(payload: NodePayload, places: Seq<int>, reference: PlacedReference)
    requires
        payload_at(payload, places) matches Some(inner) && items_deferred(inner.items@).contains(
            reference,
        ),
    ensures
        items_deferred(payload.items@).contains(reference),
    decreases places.len(),
{
    if places.len() > 0 {
        if let NodeItem::Node(node) = payload.items@[places[0]] {
            lemma_deferred_below(payload_of(node), places.skip(1), reference);
            lemma_item_deferred(payload.items@, places[0], reference);
        }
    }
}

/// Each reference that is written in a node and does not start there is left for later.
pub(crate) proof fn lemma_reference_deferred(
    payload: NodePayload,
    places: Seq<int>,
    i: int,
    j: int,
    cell: int,
)
    requires
        property_at(payload, places, i) matches Some(property) && 0 <= j < property.values@.len(),
    ensures
        reference_in((property_at(payload, places, i)->0).values@[j], cell) matches Some(reference)
            ==> !reference@.is_local() ==> items_deferred(payload.items@).contains(reference@),
{
    let inner = payload_at(payload, places)->0;
    let property = property_at(payload, places, i)->0;
    if let Some(reference) = reference_in(property.values@[j], cell) {
        if !reference@.is_local() {
            lemma_reference_in(property.values@[j], cell);
            lemma_deferred_in(value_references(property.values@[j]), reference@);
            lemma_values_deferred(property.values@, j, reference@);
            lemma_item_deferred(inner.items@, i, reference@);
            lemma_deferred_below(payload, places, reference@);
        }
    }
}

/// Where a reference is written: the places of the nodes, that of the property, that of
/// the value, and that of the cell.
pub struct ReferencePlace {
    pub places: Seq<int>,
    pub i: int,
    pub j: int,
    pub cell: int,
}

/// The reference that is written somewhere in a node.
pub open spec fn reference_at(payload: NodePayload, at: ReferencePlace) -> Option<
    WithToken<Reference>,
> {
    match property_at(payload, at.places, at.i) {
        Some(property) => if 0 <= at.j < property.values@.len() {
            reference_in(property.values@[at.j], at.cell)
        } else {
            None
        },
        None => None,
    }
}

/// Each reference that is left for later is written somewhere in the node.
pub(crate) proof fn lemma_some_reference_deferred(
    payload: NodePayload,
    found: PlacedReference,
) -> (at: ReferencePlace)
    requires
        items_deferred(payload.items@).contains(found),
    ensures
        reference_at(payload, at) matches Some(reference) && reference@ == found,
        !found.is_local(),
    decreases payload,
{
    let i = lemma_some_item_deferred(payload.items@, found);
    match payload.items@[i] {
        NodeItem::Property(property) => {
            let j = lemma_some_values_deferred(property.values@, found);
            lemma_deferred_in(value_references(property.values@[j]), found);
            let cell = lemma_some_reference_in(property.values@[j], found);
            ReferencePlace { places: Seq::empty(), i, j, cell }
        },
        NodeItem::Node(node) => {
            let below = lemma_some_reference_deferred(payload_of(node), found);
            let places = seq![i] + below.places;
            assert(places.skip(1) =~= below.places);
            ReferencePlace { places, ..below }
        },
        _ => arbitrary(),
    }
}

/// The label at the item at a place, and what it stands at: a property, or a node with its
/// path.
pub open spec fn labeled_at(
    payload: NodePayload,
    path: Seq<NodeNameView>,
    places: Seq<int>,
    i: int,
) -> Option<(Seq<char>, LabeledView)> {
    match item_at(payload, places, i) {
        Some(NodeItem::Property(property)) => match property.label {
            Some(label) => Some((label.item@, LabeledView::Property(property))),
            None => None,
        },
        Some(NodeItem::Node(node)) => match node.label {
            Some(label) => Some(
                (
                    label.item@,
                    LabeledView::Node(
                        node,
                        path_at(path, payload, places).push(node.name.item@),
                    ),
                ),
            ),
            None => None,
        },
        _ => None,
    }
}

/// The node at a place, with its path.
pub open spec fn node_at_place(
    payload: NodePayload,
    path: Seq<NodeNameView>,
    places: Seq<int>,
    i: int,
) -> Option<(Seq<NodeNameView>, Arc<Node>)> {
    match item_at(payload, places, i) {
        Some(NodeItem::Node(node)) => Some(
            (path_at(path, payload, places).push(node.name.item@), node),
        ),
        _ => None,
    }
}

spec fn item_labels(item: NodeItem, path: Seq<NodeNameView>) -> Seq<(Seq<char>, LabeledView)> {
    match item {
        NodeItem::Property(property) => crate::tree::property_labels(property),
        NodeItem::Node(node) => node_labels(node, path.push(node.name.item@)),
        _ => Seq::empty(),
    }
}

proof fn lemma_item_labels(
    items: Seq<NodeItem>,
    path: Seq<NodeNameView>,
    i: int,
    pair: (Seq<char>, LabeledView),
)
    requires
        0 <= i < items.len(),
        item_labels(items[i], path).contains(pair),
    ensures
        items_labels(items, path).contains(pair),
    decreases items.len(),
{
    let fewer = items.drop_last();
    lemma_in_both(items_labels(fewer, path), item_labels(items.last(), path), pair);
    if i < fewer.len() {
        lemma_item_labels(fewer, path, i, pair);
    }
}

proof fn lemma_some_item_labels(
    items: Seq<NodeItem>,
    path: Seq<NodeNameView>,
    pair: (Seq<char>, LabeledView),
) -> (i: int)
    requires
        items_labels(items, path).contains(pair),
    ensures
        0 <= i < items.len(),
        item_labels(items[i], path).contains(pair),
    decreases items.len(),
{
    if items.len() == 0 {
        0
    } else {
        let fewer = items.drop_last();
        lemma_in_both(items_labels(fewer, path), item_labels(items.last(), path), pair);
        if items_labels(fewer, path).contains(pair) {
            lemma_some_item_labels(fewer, path, pair)
        } else {
            items.len() - 1
        }
    }
}

/// Each label that is written in a node is among the labels in it.
pub(crate) proof fn lemma_label_written(
    payload: NodePayload,
    path: Seq<NodeNameView>,
    places: Seq<int>,
    i: int,
)
    ensures
        labeled_at(payload, path, places, i) matches Some(pair) ==> items_labels(
            payload.items@,
            path,
        ).contains(pair),
    decreases places.len(),
{
    if let Some(pair) = labeled_at(payload, path, places, i) {
        if places.len() == 0 {
            match payload.items@[i] {
                NodeItem::Property(property) => {
                    assert(crate::tree::property_labels(property)[0] == pair);
                },
                NodeItem::Node(node) => {
                    let below = path.push(node.name.item@);
                    assert(crate::tree::own_labels(node, below)[0] == pair);
                    lemma_in_both(
                        crate::tree::own_labels(node, below),
                        items_labels(node.payload.items@, below),
                        pair,
                    );
                },
                _ => {},
            }
            lemma_item_labels(payload.items@, path, i, pair);
        } else if let NodeItem::Node(node) = payload.items@[places[0]] {
            let below = path.push(node.name.item@);
            lemma_label_written(payload_of(node), below, places.skip(1), i);
            lemma_in_both(
                crate::tree::own_labels(node, below),
                items_labels(node.payload.items@, below),
                pair,
            );
            lemma_item_labels(payload.items@, path, places[0], pair);
        }
    }
}

/// Each label among those in a node is written in it.
pub(crate) proof fn lemma_some_label_written(
    payload: NodePayload,
    path: Seq<NodeNameView>,
    pair: (Seq<char>, LabeledView),
) -> (r: (Seq<int>, int))
    requires
        items_labels(payload.items@, path).contains(pair),
    ensures
        labeled_at(payload, path, r.0, r.1) == Some(pair),
    decreases payload,
{
    let i = lemma_some_item_labels(payload.items@, path, pair);
    match payload.items@[i] {
        NodeItem::Node(node) => {
            let below = path.push(node.name.item@);
            lemma_in_both(
                crate::tree::own_labels(node, below),
                items_labels(node.payload.items@, below),
                pair,
            );
            if items_labels(node.payload.items@, below).contains(pair) {
                let inner = lemma_some_label_written(payload_of(node), below, pair);
                let places = seq![i] + inner.0;
                assert(places.skip(1) =~= inner.0);
                (places, inner.1)
            } else {
                (Seq::empty(), i)
            }
        },
        _ => (Seq::empty(), i),
    }
}

spec fn item_paths(item: NodeItem, path: Seq<NodeNameView>) -> Seq<
    (Seq<NodeNameView>, Arc<Node>),
> {
    match item {
        NodeItem::Node(node) => node_paths(node, path.push(node.name.item@)),
        _ => Seq::empty(),
    }
}

proof fn lemma_item_paths(
    items: Seq<NodeItem>,
    path: Seq<NodeNameView>,
    i: int,
    pair: (Seq<NodeNameView>, Arc<Node>),
)
    requires
        0 <= i < items.len(),
        item_paths(items[i], path).contains(pair),
    ensures
        items_paths(items, path).contains(pair),
    decreases items.len(),
{
    let fewer = items.drop_last();
    lemma_in_both(items_paths(fewer, path), item_paths(items.last(), path), pair);
    if i < fewer.len() {
        lemma_item_paths(fewer, path, i, pair);
    }
}

proof fn lemma_some_item_paths(
    items: Seq<NodeItem>,
    path: Seq<NodeNameView>,
    pair: (Seq<NodeNameView>, Arc<Node>),
) -> (i: int)
    requires
        items_paths(items, path).contains(pair),
    ensures
        0 <= i < items.len(),
        item_paths(items[i], path).contains(pair),
    decreases items.len(),
{
    if items.len() == 0 {
        0
    } else {
        let fewer = items.drop_last();
        lemma_in_both(items_paths(fewer, path), item_paths(items.last(), path), pair);
        if items_paths(fewer, path).contains(pair) {
            lemma_some_item_paths(fewer, path, pair)
        } else {
            items.len() - 1
        }
    }
}

/// Each node that is written in a node is among the nodes in it, with its path.
pub(crate) proof fn lemma_node_written(
    payload: NodePayload,
    path: Seq<NodeNameView>,
    places: Seq<int>,
    i: int,
)
    ensures
        node_at_place(payload, path, places, i) matches Some(pair) ==> items_paths(
            payload.items@,
            path,
        ).contains(pair),
    decreases places.len(),
{
    if let Some(pair) = node_at_place(payload, path, places, i) {
        let at = if places.len() == 0 {
            i
        } else {
            places[0]
        };
        if let NodeItem::Node(node) = payload.items@[at] {
            let below = path.push(node.name.item@);
            let own = seq![(below, node)];
            lemma_in_both(own, items_paths(node.payload.items@, below), pair);
            if places.len() == 0 {
                assert(own[0] == pair);
            } else {
                lemma_node_written(payload_of(node), below, places.skip(1), i);
            }
            lemma_item_paths(payload.items@, path, at, pair);
        }
    }
}

/// Each node among those in a node is written in it.
pub(crate) proof fn lemma_some_node_written(
    payload: NodePayload,
    path: Seq<NodeNameView>,
    pair: (Seq<NodeNameView>, Arc<Node>),
) -> (r: (Seq<int>, int))
    requires
        items_paths(payload.items@, path).contains(pair),
    ensures
        node_at_place(payload, path, r.0, r.1) == Some(pair),
    decreases payload,
{
    let i = lemma_some_item_paths(payload.items@, path, pair);
    match payload.items@[i] {
        NodeItem::Node(node) => {
            let below = path.push(node.name.item@);
            let own = seq![(below, node)];
            lemma_in_both(own, items_paths(node.payload.items@, below), pair);
            if items_paths(node.payload.items@, below).contains(pair) {
                let inner = lemma_some_node_written(payload_of(node), below, pair);
                let places = seq![i] + inner.0;
                assert(places.skip(1) =~= inner.0);
                (places, inner.1)
            } else {
                (Seq::empty(), i)
            }
        },
        _ => (Seq::empty(), i),
    }
}

spec fn schema_of(property: Arc<Property>, path: Seq<NodeNameView>) -> Seq<DiagnosticView> {
    schema_findings(*property, path)
}

/// What is found of a property is found of its values, or its name gives rise to it.
pub(crate) proof fn lemma_property_says(
    property: Arc<Property>,
    in_node: NodePayload,
    path: Seq<NodeNameView>,
    reports: bool,
    loads: Seq<LoadOutcome>,
    at: int,
    finding: DiagnosticView,
)
    ensures
        property_findings(*property, in_node, path, reports, loads, at).contains(finding) == (
        values_findings(property.values@, in_node, reports, loads, at).contains(finding)
            || schema_findings(*property, path).contains(finding)),
{
    lemma_in_both(
        values_findings(property.values@, in_node, reports, loads, at),
        schema_of(property, path),
        finding,
    );
}

} // verus!
