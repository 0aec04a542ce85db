//! What the nodes of a device tree hold: labels, paths, references and the names
//! of files.
use crate::ast::{
    AnyDirective, Cell, DtsFile, Node, NodeItem, NodeNameView, NodePayload, Primary, Property,
    PropertyValue, Reference, ReferenceView, ReferencedNode, WithToken,
};
use crate::context::{child_along, first_property, LabeledView};
use crate::data::{FileId, HasSource, HasSpan, Span};
use crate::diagnostics::{io_error_view, DiagnosticView};
use crate::error_codes::ErrorCode;
use crate::loader::LoadOutcome;
use crate::text::texts;
use std::sync::Arc;
use vstd::prelude::*;

verus! {

/// A map with pairs put in, one after the other: of two pairs with the same key,
/// the later one stays.
pub open spec fn bind_all<K, V>(map: Map<K, V>, pairs: Seq<(K, V)>) -> Map<K, V>
    decreases pairs.len(),
{
    if pairs.len() == 0 {
        map
    } else {
        bind_all(map, pairs.drop_last()).insert(pairs.last().0, pairs.last().1)
    }
}

/// To put in pairs and then more is to put in all of them.
pub proof fn lemma_bind_all_more<K, V>(map: Map<K, V>, pairs: Seq<(K, V)>, more: Seq<(K, V)>)
    ensures
        bind_all(map, pairs + more) == bind_all(bind_all(map, pairs), more),
    decreases more.len(),
{
    if more.len() == 0 {
        assert(pairs + more =~= pairs);
    } else {
        assert((pairs + more).drop_last() =~= pairs + more.drop_last());
        lemma_bind_all_more(map, pairs, more.drop_last());
    }
}

/// Whether a key is among pairs.
pub open spec fn among<K, V>(pairs: Seq<(K, V)>, key: K) -> bool {
    exists|i: int| 0 <= i < pairs.len() && (#[trigger] pairs[i]).0 == key
}

/// A key among the pairs that were put in is known, and so is every key that was known
/// before.
pub proof fn lemma_bind_all_keys<K, V>(map: Map<K, V>, pairs: Seq<(K, V)>, key: K)
    ensures
        bind_all(map, pairs).contains_key(key) == (map.contains_key(key) || among(pairs, key)),
        !among(pairs, key) && map.contains_key(key) ==> bind_all(map, pairs)[key] == map[key],
    decreases pairs.len(),
{
    if pairs.len() > 0 {
        let fewer = pairs.drop_last();
        lemma_bind_all_keys(map, fewer, key);
        if among(fewer, key) {
            let i = choose|i: int| 0 <= i < fewer.len() && (#[trigger] fewer[i]).0 == key;
            assert(pairs[i].0 == key);
        }
        if among(pairs, key) {
            let i = choose|i: int| 0 <= i < pairs.len() && (#[trigger] pairs[i]).0 == key;
            if i < fewer.len() {
                assert(fewer[i].0 == key);
            }
        }
        assert(pairs.last().0 == key ==> pairs[pairs.len() - 1].0 == key);
    }
}

/// Of pairs with the same key that were put in, the last one stays.
pub proof fn lemma_last_pair_stays<K, V>(map: Map<K, V>, pairs: Seq<(K, V)>, i: int)
    requires
        0 <= i < pairs.len(),
        forall|j: int| i < j < pairs.len() ==> (#[trigger] pairs[j]).0 != pairs[i].0,
    ensures
        bind_all(map, pairs).contains_key(pairs[i].0),
        bind_all(map, pairs)[pairs[i].0] == pairs[i].1,
    decreases pairs.len(),
{
    if i < pairs.len() - 1 {
        let fewer = pairs.drop_last();
        assert forall|j: int| i < j < fewer.len() implies (#[trigger] fewer[j]).0 != fewer[i].0 by {
            assert(pairs[j].0 != pairs[i].0);
        }
        lemma_last_pair_stays(map, fewer, i);
        assert(pairs[pairs.len() - 1].0 != pairs[i].0);
    }
}

/// The label of something, as a pair of the label and what it stands at.
pub open spec fn label_pair(
    label: Option<WithToken<String>>,
    labeled: LabeledView,
) -> Seq<(Seq<char>, LabeledView)> {
    match label {
        Some(label) => seq![(label.item@, labeled)],
        None => Seq::empty(),
    }
}

/// The label of a property.
pub open spec fn property_labels(property: Arc<Property>) -> Seq<(Seq<char>, LabeledView)> {
    label_pair(property.label, LabeledView::Property(property))
}

/// The label of a node at a path.
pub open spec fn own_labels(node: Arc<Node>, path: Seq<NodeNameView>) -> Seq<
    (Seq<char>, LabeledView),
> {
    label_pair(node.label, LabeledView::Node(node, path))
}

/// The label of a node that is given by a reference.
pub open spec fn referenced_labels(node: Arc<ReferencedNode>) -> Seq<(Seq<char>, LabeledView)> {
    label_pair(node.label, LabeledView::ReferencedNode(node))
}

/// The labels in a node at a path, in the order in which they are written.
pub open spec fn node_labels(node: Arc<Node>, path: Seq<NodeNameView>) -> Seq<
    (Seq<char>, LabeledView),
>
    decreases node,
{
    own_labels(node, path) + items_labels(node.payload.items@, path)
}

/// The labels in the items of a node at a path, in the order in which they are
/// written.
pub open spec fn items_labels(items: Seq<NodeItem>, path: Seq<NodeNameView>) -> Seq<
    (Seq<char>, LabeledView),
>
    decreases items,
{
    if items.len() == 0 {
        Seq::empty()
    } else {
        items_labels(items.drop_last(), path) + match items.last() {
            NodeItem::Property(property) => property_labels(property),
            NodeItem::Node(node) => node_labels(node, path.push(node.name.item@)),
            _ => Seq::empty(),
        }
    }
}

/// A node at a path and all nodes in it, each with its path, in the order in which
/// they are written.
pub open spec fn node_paths(node: Arc<Node>, path: Seq<NodeNameView>) -> Seq<
    (Seq<NodeNameView>, Arc<Node>),
>
    decreases node,
{
    seq![(path, node)] + items_paths(node.payload.items@, path)
}

/// The nodes in the items of a node at a path, each with its path, in the order in
/// which they are written.
pub open spec fn items_paths(items: Seq<NodeItem>, path: Seq<NodeNameView>) -> Seq<
    (Seq<NodeNameView>, Arc<Node>),
>
    decreases items,
{
    if items.len() == 0 {
        Seq::empty()
    } else {
        items_paths(items.drop_last(), path) + match items.last() {
            NodeItem::Node(node) => node_paths(node, path.push(node.name.item@)),
            _ => Seq::empty(),
        }
    }
}

/// A reference and where it stands, as a mathematical value.
pub struct PlacedReference {
    pub reference: ReferenceView,
    pub span: Span,
    pub source: FileId,
}

impl View for WithToken<Reference> {
    type V = PlacedReference;

    open spec fn view(&self) -> PlacedReference {
        PlacedReference {
            reference: self.item@,
            span: self.token.span,
            source: self.token.source,
        }
    }
}

impl PlacedReference {
    /// Whether the reference starts at the node in which it is written.
    pub open spec fn is_local(self) -> bool {
        match self.reference {
            ReferenceView::Label(_) => false,
            ReferenceView::Path(path) => path is DotRelative,
            ReferenceView::PropertyPath(path) => path.node_path is DotRelative,
        }
    }

    /// Whether a reference that starts at the node in which it is written leads to
    /// something there.
    pub open spec fn resolves_in(self, in_node: NodePayload) -> bool {
        match self.reference {
            ReferenceView::Label(_) => false,
            ReferenceView::Path(path) => child_along(in_node, path.elements()) is Some,
            ReferenceView::PropertyPath(path) => child_along(
                in_node,
                path.node_path.elements(),
            ) matches Some(node) && first_property(
                node.payload.items@,
                path.property_name,
            ) is Some,
        }
    }

    /// The finding that the reference leads nowhere.
    pub open spec fn unresolved(self) -> DiagnosticView {
        DiagnosticView {
            span: self.span,
            source: self.source,
            kind: ErrorCode::UnresolvedReference,
            message: "Reference cannot be resolved"@,
        }
    }
}

/// The references among cells.
pub open spec fn cells_references(cells: Seq<Cell>) -> Seq<PlacedReference>
    decreases cells.len(),
{
    if cells.len() == 0 {
        Seq::empty()
    } else {
        cells_references(cells.drop_last()) + match cells.last() {
            Cell::Reference(reference) => seq![reference@],
            _ => Seq::empty(),
        }
    }
}

/// The references in a value.
pub open spec fn value_references(value: PropertyValue) -> Seq<PlacedReference> {
    match value {
        PropertyValue::Cells(_, cells, _) => cells_references(cells@),
        PropertyValue::Reference(reference) => seq![reference@],
        _ => Seq::empty(),
    }
}

/// The references that do not start at the node in which they are written. Whether
/// they lead somewhere shows only when the whole file is known.
pub open spec fn deferred(references: Seq<PlacedReference>) -> Seq<PlacedReference>
    decreases references.len(),
{
    if references.len() == 0 {
        Seq::empty()
    } else {
        deferred(references.drop_last()) + if references.last().is_local() {
            Seq::empty()
        } else {
            seq![references.last()]
        }
    }
}

/// The findings about references that start at the node in which they are written.
pub open spec fn local_findings(
    references: Seq<PlacedReference>,
    in_node: NodePayload,
    reports: bool,
) -> Seq<DiagnosticView>
    decreases references.len(),
{
    if references.len() == 0 {
        Seq::empty()
    } else {
        let last = references.last();
        local_findings(references.drop_last(), in_node, reports) + if reports && last.is_local()
            && !last.resolves_in(in_node) {
            seq![last.unresolved()]
        } else {
            Seq::empty()
        }
    }
}

/// The names of the files that a value names.
pub open spec fn value_requests(value: PropertyValue) -> Seq<Seq<char>> {
    match value {
        PropertyValue::Incbin(_, inclusion, _) => seq![inclusion.file_name.item@],
        _ => Seq::empty(),
    }
}

/// The names of the files that values name.
pub open spec fn values_requests(values: Seq<PropertyValue>) -> Seq<Seq<char>>
    decreases values.len(),
{
    if values.len() == 0 {
        Seq::empty()
    } else {
        values_requests(values.drop_last()) + value_requests(values.last())
    }
}

/// The names of the files that items name, in the order in which they are written.
pub open spec fn items_requests(items: Seq<NodeItem>) -> Seq<Seq<char>>
    decreases items,
{
    if items.len() == 0 {
        Seq::empty()
    } else {
        items_requests(items.drop_last()) + match items.last() {
            NodeItem::Property(property) => values_requests(property.values@),
            NodeItem::Node(node) => items_requests(node.payload.items@),
            _ => Seq::empty(),
        }
    }
}

/// The names of the files that an element of a file names, in the order in which
/// they are written.
pub open spec fn primary_requests(primary: Primary) -> Seq<Seq<char>> {
    match primary {
        Primary::Directive(AnyDirective::Include(inclusion)) => seq![inclusion.file_name.item@],
        Primary::Root(node) => items_requests(node.payload.items@),
        Primary::ReferencedNode(node) => items_requests(node.payload.items@),
        _ => Seq::empty(),
    }
}

/// The names of the files that elements of a file name, in the order in which they
/// are written.
pub open spec fn primaries_requests(primaries: Seq<Primary>) -> Seq<Seq<char>>
    decreases primaries.len(),
{
    if primaries.len() == 0 {
        Seq::empty()
    } else {
        primaries_requests(primaries.drop_last()) + primary_requests(primaries.last())
    }
}

/// The findings about a value: references that lead nowhere, and a file that could
/// not be found. What came of the search for it is at `at` in `loads`.
pub open spec fn value_findings(
    value: PropertyValue,
    in_node: NodePayload,
    reports: bool,
    loads: Seq<LoadOutcome>,
    at: int,
) -> Seq<DiagnosticView> {
    match value {
        PropertyValue::Incbin(_, inclusion, _) => match loads[at] {
            Ok(_) => Seq::empty(),
            Err(err) => seq![
                io_error_view(value.spec_span(), inclusion.include_token.source, err.message@),
            ],
        },
        _ => local_findings(value_references(value), in_node, reports),
    }
}

/// The findings about the values of a property.
pub open spec fn values_findings(
    values: Seq<PropertyValue>,
    in_node: NodePayload,
    reports: bool,
    loads: Seq<LoadOutcome>,
    at: int,
) -> Seq<DiagnosticView>
    decreases values.len(),
{
    if values.len() == 0 {
        Seq::empty()
    } else {
        values_findings(values.drop_last(), in_node, reports, loads, at) + value_findings(
            values.last(),
            in_node,
            reports,
            loads,
            at + values_requests(values.drop_last()).len(),
        )
    }
}

/// The references in values that show only later whether they lead somewhere.
pub open spec fn values_deferred(values: Seq<PropertyValue>) -> Seq<PlacedReference>
    decreases values.len(),
{
    if values.len() == 0 {
        Seq::empty()
    } else {
        values_deferred(values.drop_last()) + deferred(value_references(values.last()))
    }
}

/// The findings about values that are not strings, where strings are expected.
pub open spec fn non_string_findings(values: Seq<PropertyValue>) -> Seq<DiagnosticView>
    decreases values.len(),
{
    if values.len() == 0 {
        Seq::empty()
    } else {
        non_string_findings(values.drop_last()) + if values.last() is String {
            Seq::empty()
        } else {
            seq![
                DiagnosticView {
                    span: values.last().spec_span(),
                    source: values.last().spec_source(),
                    kind: ErrorCode::NonStringInCompatible,
                    message: "compatible property should only contain strings"@,
                },
            ]
        }
    }
}

/// Whether values are a single string.
pub open spec fn is_single_string(values: Seq<PropertyValue>) -> bool {
    values.len() == 1 && values[0] is String
}

/// Whether values are a single number.
pub open spec fn is_single_number(values: Seq<PropertyValue>) -> bool {
    &&& values.len() == 1
    &&& values[0] matches PropertyValue::Cells(_, cells, _)
    &&& cells@.len() == 1
    &&& cells@[0] is Number
}

/// The finding that a property does not hold what it should.
pub open spec fn property_finding(
    property: Property,
    kind: ErrorCode,
    message: Seq<char>,
) -> DiagnosticView {
    DiagnosticView { span: property.spec_span(), source: property.spec_source(), kind, message }
}

/// The findings about a property of a node at a path that its name gives rise to:
/// `compatible` holds strings, the `model` of the root node is a string, and
/// `phandle` is a number.
pub open spec fn schema_findings(property: Property, path: Seq<NodeNameView>) -> Seq<
    DiagnosticView,
> {
    if property.name.item@ == "compatible"@ {
        non_string_findings(property.values@)
    } else if property.name.item@ == "model"@ {
        if path.len() == 0 && !is_single_string(property.values@) {
            seq![
                property_finding(
                    property,
                    ErrorCode::ExpectedString,
                    "property should contain a single string"@,
                ),
            ]
        } else {
            Seq::empty()
        }
    } else if property.name.item@ == "phandle"@ {
        if !is_single_number(property.values@) {
            seq![
                property_finding(
                    property,
                    ErrorCode::ExpectedU32,
                    "property should contain a single number"@,
                ),
            ]
        } else {
            Seq::empty()
        }
    } else {
        Seq::empty()
    }
}

/// The findings about a property of a node at a path.
pub open spec fn property_findings(
    property: Property,
    in_node: NodePayload,
    path: Seq<NodeNameView>,
    reports: bool,
    loads: Seq<LoadOutcome>,
    at: int,
) -> Seq<DiagnosticView> {
    values_findings(property.values@, in_node, reports, loads, at) + schema_findings(
        property,
        path,
    )
}

/// The findings about items of the node `in_node` at a path.
pub open spec fn items_findings(
    items: Seq<NodeItem>,
    in_node: NodePayload,
    path: Seq<NodeNameView>,
    reports: bool,
    loads: Seq<LoadOutcome>,
    at: int,
) -> Seq<DiagnosticView>
    decreases items,
{
    if items.len() == 0 {
        Seq::empty()
    } else {
        let before = items.drop_last();
        let here = at + items_requests(before).len();
        items_findings(before, in_node, path, reports, loads, at) + match items.last() {
            NodeItem::Property(property) => property_findings(
                *property,
                in_node,
                path,
                reports,
                loads,
                here,
            ),
            NodeItem::Node(node) => items_findings(
                node.payload.items@,
                node.payload,
                path.push(node.name.item@),
                reports,
                loads,
                here,
            ),
            _ => Seq::empty(),
        }
    }
}

/// The references in items that show only later whether they lead somewhere.
pub open spec fn items_deferred(items: Seq<NodeItem>) -> Seq<PlacedReference>
    decreases items,
{
    if items.len() == 0 {
        Seq::empty()
    } else {
        items_deferred(items.drop_last()) + match items.last() {
            NodeItem::Property(property) => values_deferred(property.values@),
            NodeItem::Node(node) => items_deferred(node.payload.items@),
            _ => Seq::empty(),
        }
    }
}

/// Puts the names of the files that values name behind others.
fn push_values_requests(values: &Vec<PropertyValue>, requests: &mut Vec<String>)
    ensures
        texts(final(requests)@) == texts(old(requests)@) + values_requests(values@),
{
    let mut i: usize = 0;
    proof {
        assert(values@.take(0) =~= Seq::empty());
        assert(texts(requests@) + Seq::empty() =~= texts(requests@));
    }
    while i < values.len()
        invariant
            i <= values@.len(),
            texts(requests@) == texts(old(requests)@) + values_requests(values@.take(i as int)),
        decreases values@.len() - i,
    {
        let ghost before = requests@;
        assert(values@.take(i + 1).drop_last() =~= values@.take(i as int));
        if let PropertyValue::Incbin(_, inclusion, _) = &values[i] {
            requests.push(inclusion.file_name());
        }
        assert(texts(requests@) =~= texts(before) + value_requests(values@[i as int]));
        assert(texts(requests@) =~= texts(old(requests)@) + values_requests(values@.take(i + 1)));
        i += 1;
    }
    assert(values@.take(i as int) =~= values@);
}

/// Puts the names of the files that items name behind others.
fn push_items_requests(payload: &NodePayload, requests: &mut Vec<String>)
    ensures
        texts(final(requests)@) == texts(old(requests)@) + items_requests(payload.items@),
    decreases payload,
{
    let items = &payload.items;
    let mut i: usize = 0;
    proof {
        assert(items@.take(0) =~= Seq::empty());
        assert(texts(requests@) + Seq::empty() =~= texts(requests@));
    }
    while i < items.len()
        invariant
            i <= items@.len(),
            items == payload.items,
            texts(requests@) == texts(old(requests)@) + items_requests(items@.take(i as int)),
        decreases items@.len() - i,
    {
        assert(items@.take(i + 1).drop_last() =~= items@.take(i as int));
        match &items[i] {
            NodeItem::Property(property) => {
                push_values_requests(&property.values, requests);
            },
            NodeItem::Node(node) => {
                push_items_requests(&node.payload, requests);
            },
            _ => {},
        }
        assert(texts(requests@) =~= texts(old(requests)@) + items_requests(items@.take(i + 1)));
        i += 1;
    }
    assert(items@.take(i as int) =~= items@);
}

/// The names of all files that a file names, in the order in which they are
/// written.
pub fn load_requests(file: &DtsFile) -> (r: Vec<String>)
    ensures
        texts(r@) == primaries_requests(file.elements@),
{
    let primaries = &file.elements;
    let mut requests: Vec<String> = Vec::new();
    let mut i: usize = 0;
    proof {
        assert(primaries@.take(0) =~= Seq::empty());
        assert(texts(requests@) =~= Seq::empty());
    }
    while i < primaries.len()
        invariant
            i <= primaries@.len(),
            primaries == file.elements,
            texts(requests@) == primaries_requests(primaries@.take(i as int)),
        decreases primaries@.len() - i,
    {
        let ghost before = requests@;
        assert(primaries@.take(i + 1).drop_last() =~= primaries@.take(i as int));
        match &primaries[i] {
            Primary::Directive(AnyDirective::Include(inclusion)) => {
                requests.push(inclusion.file_name());
                assert(texts(requests@) =~= texts(before) + seq![inclusion.file_name.item@]);
            },
            Primary::Root(node) => {
                push_items_requests(&node.payload, &mut requests);
            },
            Primary::ReferencedNode(node) => {
                push_items_requests(&node.payload, &mut requests);
            },
            _ => {
                assert(texts(before) + Seq::empty() =~= texts(before));
            },
        }
        i += 1;
    }
    assert(primaries@.take(i as int) =~= primaries@);
    requests
}

} // verus!
