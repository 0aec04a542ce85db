//! What searches for nodes and properties come to.
use crate::ast::{
    names_view, Node, NodeItem, NodeNameView, NodePayload, Path, Reference,
};
use crate::context::{
    child_along, first_named, first_property, last_named, ContextView, LabeledView,
};
use crate::place_laws::payload_of;
use std::sync::Arc;
use vstd::prelude::*;

verus! {

/// Whether an item is a node of a name.
pub open spec fn is_named(item: NodeItem, name: NodeNameView) -> bool {
    item matches NodeItem::Node(node) && node.name.item@ == name
}

/// Whether an item is a property of a name.
pub open spec fn is_property_named(item: NodeItem, name: Seq<char>) -> bool {
    item matches NodeItem::Property(property) && property.name.item@ == name
}

/// Whether there is a property of a name among items.
pub open spec fn has_property(items: Seq<NodeItem>, name: Seq<char>) -> bool {
    exists|i: int| 0 <= i < items.len() && is_property_named(#[trigger] items[i], name)
}

/// The first node of a name is a node of that name, and none stands before it; there is no
/// first one only if there is none.
pub proof fn lemma_first_named(items: Seq<NodeItem>, name: NodeNameView)
    ensures
        match first_named(items, name) {
            Some(node) => exists|i: int|
                0 <= i < items.len() && #[trigger] items[i] == NodeItem::Node(node)
                    && node.name.item@ == name && forall|j: int|
                    0 <= j < i ==> !is_named(#[trigger] items[j], name),
            None => forall|j: int| 0 <= j < items.len() ==> !is_named(#[trigger] items[j], name),
        },
    decreases items.len(),
{
    if items.len() > 0 {
        let fewer = items.drop_last();
        lemma_first_named(fewer, name);
        match first_named(fewer, name) {
            Some(node) => {
                let i = choose|i: int|
                    0 <= i < fewer.len() && #[trigger] fewer[i] == NodeItem::Node(node)
                        && node.name.item@ == name && forall|j: int|
                        0 <= j < i ==> !is_named(#[trigger] fewer[j], name);
                assert(items[i] == NodeItem::Node(node));
                assert forall|j: int| 0 <= j < i implies !is_named(#[trigger] items[j], name) by {
                    assert(!is_named(fewer[j], name));
                }
            },
            None => {
                assert forall|j: int| 0 <= j < fewer.len() implies !is_named(
                    #[trigger] items[j],
                    name,
                ) by {
                    assert(!is_named(fewer[j], name));
                }
                assert(items[items.len() - 1] == items.last());
            },
        }
    }
}

/// The last node of a name is a node of that name, and none stands behind it; there is no
/// last one only if there is none.
pub proof fn lemma_last_named(items: Seq<NodeItem>, name: NodeNameView)
    ensures
        match last_named(items, name) {
            Some(node) => exists|i: int|
                0 <= i < items.len() && #[trigger] items[i] == NodeItem::Node(node)
                    && node.name.item@ == name && forall|j: int|
                    i < j < items.len() ==> !is_named(#[trigger] items[j], name),
            None => forall|j: int| 0 <= j < items.len() ==> !is_named(#[trigger] items[j], name),
        },
    decreases items.len(),
{
    if items.len() > 0 {
        let fewer = items.drop_last();
        assert(items[items.len() - 1] == items.last());
        if !is_named(items.last(), name) {
            lemma_last_named(fewer, name);
            match last_named(fewer, name) {
                Some(node) => {
                    let i = choose|i: int|
                        0 <= i < fewer.len() && #[trigger] fewer[i] == NodeItem::Node(node)
                            && node.name.item@ == name && forall|j: int|
                            i < j < fewer.len() ==> !is_named(#[trigger] fewer[j], name);
                    assert(items[i] == NodeItem::Node(node));
                    assert forall|j: int| i < j < items.len() implies !is_named(
                        #[trigger] items[j],
                        name,
                    ) by {
                        if j < fewer.len() {
                            assert(!is_named(fewer[j], name));
                        }
                    }
                },
                None => {
                    assert forall|j: int| 0 <= j < items.len() implies !is_named(
                        #[trigger] items[j],
                        name,
                    ) by {
                        if j < fewer.len() {
                            assert(!is_named(fewer[j], name));
                        }
                    }
                },
            }
        }
    }
}

/// The first property of a name is a property of that name, and none stands before it;
/// there is no first one only if there is none.
pub proof fn lemma_first_property(items: Seq<NodeItem>, name: Seq<char>)
    ensures
        match first_property(items, name) {
            Some(property) => exists|i: int|
                0 <= i < items.len() && #[trigger] items[i] == NodeItem::Property(property)
                    && property.name.item@ == name && forall|j: int|
                    0 <= j < i ==> !is_property_named(#[trigger] items[j], name),
            None => !has_property(items, name),
        },
        first_property(items, name) is Some ==> has_property(items, name),
    decreases items.len(),
{
    if items.len() > 0 {
        let fewer = items.drop_last();
        lemma_first_property(fewer, name);
        match first_property(fewer, name) {
            Some(property) => {
                let i = choose|i: int|
                    0 <= i < fewer.len() && #[trigger] fewer[i] == NodeItem::Property(property)
                        && property.name.item@ == name && forall|j: int|
                        0 <= j < i ==> !is_property_named(#[trigger] fewer[j], name);
                assert(items[i] == NodeItem::Property(property));
                assert(is_property_named(items[i], name));
                assert forall|j: int| 0 <= j < i implies !is_property_named(
                    #[trigger] items[j],
                    name,
                ) by {
                    assert(!is_property_named(fewer[j], name));
                }
            },
            None => {
                assert forall|j: int| 0 <= j < fewer.len() implies !is_property_named(
                    #[trigger] items[j],
                    name,
                ) by {
                    assert(!is_property_named(fewer[j], name));
                }
                assert(items[items.len() - 1] == items.last());
                if let Some(property) = first_property(items, name) {
                    assert(is_property_named(items[items.len() - 1], name));
                }
            },
        }
    }
}

/// The nodes that a search passes through: each is the last child of its name in the one
/// before, and the last one is the first child of its name.
pub open spec fn leads_through(
    payload: NodePayload,
    names: Seq<NodeNameView>,
    nodes: Seq<Arc<Node>>,
) -> bool
    decreases names.len(),
{
    &&& nodes.len() == names.len()
    &&& names.len() > 0
    &&& exists|i: int|
        {
            &&& 0 <= i < payload.items@.len()
            &&& #[trigger] payload.items@[i] == NodeItem::Node(nodes[0])
            &&& nodes[0].name.item@ == names[0]
            &&& forall|j: int|
                0 <= j < payload.items@.len() && (if names.len() == 1 {
                    j < i
                } else {
                    j > i
                }) ==> !is_named(#[trigger] payload.items@[j], names[0])
        }
    &&& names.len() > 1 ==> leads_through(nodes[0].payload, names.skip(1), nodes.skip(1))
}

/// A search comes to the node that names lead to one after the other.
pub proof fn lemma_search_leads_through(
    payload: NodePayload,
    names: Seq<NodeNameView>,
    nodes: Seq<Arc<Node>>,
)
    requires
        leads_through(payload, names, nodes),
    ensures
        child_along(payload, names) == Some(nodes.last()),
    decreases names.len(),
{
    let items = payload.items@;
    let i = choose|i: int|
        {
            &&& 0 <= i < items.len()
            &&& #[trigger] items[i] == NodeItem::Node(nodes[0])
            &&& nodes[0].name.item@ == names[0]
            &&& forall|j: int|
                0 <= j < items.len() && (if names.len() == 1 {
                    j < i
                } else {
                    j > i
                }) ==> !is_named(#[trigger] items[j], names[0])
        };
    assert(is_named(items[i], names[0]));
    if names.len() == 1 {
        lemma_first_named(items, names[0]);
        let node = first_named(items, names[0])->0;
        let k = choose|k: int|
            0 <= k < items.len() && #[trigger] items[k] == NodeItem::Node(node)
                && node.name.item@ == names[0] && forall|j: int|
                0 <= j < k ==> !is_named(#[trigger] items[j], names[0]);
        assert(is_named(items[k], names[0]));
        assert(k == i);
    } else {
        lemma_last_named(items, names[0]);
        let node = last_named(items, names[0])->0;
        let k = choose|k: int|
            0 <= k < items.len() && #[trigger] items[k] == NodeItem::Node(node)
                && node.name.item@ == names[0] && forall|j: int|
                k < j < items.len() ==> !is_named(#[trigger] items[j], names[0]);
        assert(is_named(items[k], names[0]));
        assert(k == i);
        lemma_search_leads_through(payload_of(nodes[0]), names.skip(1), nodes.skip(1));
        assert(nodes.skip(1).last() == nodes.last());
    }
}

/// A search passes over names, other than the last one, of which there is no child.
pub proof fn lemma_search_passes_over(payload: NodePayload, names: Seq<NodeNameView>)
    requires
        names.len() > 1,
        forall|j: int|
            0 <= j < payload.items@.len() ==> !is_named(#[trigger] payload.items@[j], names[0]),
    ensures
        child_along(payload, names) == child_along(payload, names.skip(1)),
{
    lemma_last_named(payload.items@, names[0]);
}

/// What a search comes to has the last of the names, and stands among the items of a node.
pub proof fn lemma_search_comes_to_last_name(payload: NodePayload, names: Seq<NodeNameView>)
    ensures
        child_along(payload, names) matches Some(node) ==> names.len() > 0 && node.name.item@
            == names.last(),
    decreases names.len(),
{
    if names.len() == 1 {
        lemma_first_named(payload.items@, names[0]);
    } else if names.len() > 1 {
        assert(names.skip(1).last() == names.last());
        match last_named(payload.items@, names[0]) {
            Some(node) => {
                lemma_search_comes_to_last_name(payload_of(node), names.skip(1));
            },
            None => {
                lemma_search_comes_to_last_name(payload, names.skip(1));
            },
        }
    }
}

/// A name, other than the last one, leads on to the last child of that name.
pub proof fn lemma_search_leads_on(payload: NodePayload, names: Seq<NodeNameView>, i: int)
    requires
        names.len() > 1,
        0 <= i < payload.items@.len(),
        is_named(payload.items@[i], names[0]),
        forall|j: int|
            i < j < payload.items@.len() ==> !is_named(#[trigger] payload.items@[j], names[0]),
    ensures
        payload.items@[i] matches NodeItem::Node(node) && child_along(payload, names)
            == child_along(node.payload, names.skip(1)),
{
    lemma_last_named(payload.items@, names[0]);
    let node = last_named(payload.items@, names[0])->0;
    let k = choose|k: int|
        0 <= k < payload.items@.len() && #[trigger] payload.items@[k] == NodeItem::Node(node)
            && node.name.item@ == names[0] && forall|j: int|
            k < j < payload.items@.len() ==> !is_named(#[trigger] payload.items@[j], names[0]);
    assert(is_named(payload.items@[k], names[0]));
    assert(k == i);
}

/// No name leads to nothing, and a single name leads to the first child of that name.
pub proof fn lemma_search_ends(payload: NodePayload, names: Seq<NodeNameView>)
    ensures
        names.len() == 0 ==> child_along(payload, names) is None,
        names.len() == 1 ==> match child_along(payload, names) {
            Some(node) => exists|i: int|
                0 <= i < payload.items@.len() && #[trigger] payload.items@[i]
                    == NodeItem::Node(node) && node.name.item@ == names[0] && forall|j: int|
                    0 <= j < i ==> !is_named(#[trigger] payload.items@[j], names[0]),
            None => forall|j: int|
                0 <= j < payload.items@.len() ==> !is_named(
                    #[trigger] payload.items@[j],
                    names[0],
                ),
        },
{
    if names.len() == 1 {
        lemma_first_named(payload.items@, names[0]);
    }
}

/// Whether a reference starts at the node in which it is written.
pub open spec fn starts_at_node(reference: Reference) -> bool {
    match reference {
        Reference::Label(_) => false,
        Reference::Path(path) => path is DotRelative,
        Reference::PropertyPath(path) => path.node_path is DotRelative,
    }
}

/// Whether a reference that starts at a node leads to a node, or to a property of a node.
pub open spec fn leads_from_node(payload: NodePayload, reference: Reference) -> bool {
    match reference {
        Reference::Label(_) => false,
        Reference::Path(path) => child_along(payload, names_along(path)) is Some,
        Reference::PropertyPath(path) => child_along(
            payload,
            names_along(path.node_path),
        ) matches Some(node) && has_property(node.payload.items@, path.property_name@),
    }
}

/// The names along a path.
pub open spec fn names_along(path: Path) -> Seq<NodeNameView> {
    match path {
        Path::Absolute(path) => names_view(path.elements@),
        Path::DotRelative(path) => names_view(path.elements@),
        Path::LabelRelative(path) => names_view(path.elements@),
    }
}

/// The path of the node that a path leads to which does not start at a node: it is one
/// from the root at which there is a node, or one that a search from a labeled node comes
/// to.
pub open spec fn path_from_root(context: ContextView, path: Path) -> Option<Seq<NodeNameView>> {
    let names = names_along(path);
    match path {
        Path::Absolute(_) => if context.nodes.contains_key(names) {
            Some(names)
        } else {
            None
        },
        Path::DotRelative(_) => None,
        Path::LabelRelative(path) => if context.labels.contains_key(path.label@) {
            match context.labels[path.label@] {
                LabeledView::Node(node, start) => if names.len() == 0 || child_along(
                    node.payload,
                    names,
                ) is Some {
                    Some(start + names)
                } else {
                    None
                },
                _ => None,
            }
        } else {
            None
        },
    }
}

/// The path of the node that a reference leads to which does not start at a node.
pub open spec fn target_from_root(context: ContextView, reference: Reference) -> Option<
    Seq<NodeNameView>,
> {
    match reference {
        Reference::Label(label) => if context.labels.contains_key(label@) {
            match context.labels[label@] {
                LabeledView::Node(_, path) => Some(path),
                _ => None,
            }
        } else {
            None
        },
        Reference::Path(path) => path_from_root(context, path),
        Reference::PropertyPath(path) => match path_from_root(context, path.node_path) {
            Some(names) => if context.nodes.contains_key(names) && has_property(
                context.nodes[names].payload.items@,
                path.property_name@,
            ) {
                Some(names)
            } else {
                None
            },
            None => None,
        },
    }
}

/// Whether a reference that does not start at a node leads somewhere: to anything that has
/// the label, to a node, or to a property of a node.
pub open spec fn leads_from_root(context: ContextView, reference: Reference) -> bool {
    match reference {
        Reference::Label(label) => context.labels.contains_key(label@),
        _ => target_from_root(context, reference) is Some,
    }
}

/// References lead where they are said to lead.
pub(crate) proof fn lemma_where_references_lead(
    context: ContextView,
    payload: NodePayload,
    reference: crate::ast::WithToken<Reference>,
)
    ensures
        starts_at_node(reference.item) == reference@.is_local(),
        starts_at_node(reference.item) ==> leads_from_node(payload, reference.item)
            == reference@.resolves_in(payload),
        target_from_root(context, reference.item) == context.referenced_path(reference.item@),
        leads_from_root(context, reference.item) == context.resolves(reference.item@),
{
    if let Reference::PropertyPath(path) = reference.item {
        if let Some(node) = child_along(payload, names_along(path.node_path)) {
            lemma_first_property(node.payload.items@, path.property_name@);
        }
        if let Some(names) = path_from_root(context, path.node_path) {
            if context.nodes.contains_key(names) {
                lemma_first_property(context.nodes[names].payload.items@, path.property_name@);
            }
        }
    }
}

} // verus!
