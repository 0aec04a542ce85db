//! What an editor is told of the thing at a position.
use crate::ast::{Include, Node, Path, Property, PropertyPath, Reference, WithToken};
use crate::context::{child_along, AnalysisContext, ContextView, LabeledView, ReferenceContext};
use crate::data::{FileId, IoError, Span, Token};
use crate::diagnostics::Diagnostic;
use crate::display::{value_text, value_texts};
use crate::error_codes::{ErrorCode, Severity, SeverityMap};
use crate::finding_laws::span_of_inclusion;
use crate::project::{ancestor, ends_after, lemma_root_at_end, Project, ProjectView, StatusView};
use crate::context_laws::nodes_are_named;
use crate::place_laws::payload_of;
use crate::search_laws::{
    is_property_named, lemma_first_property, lemma_search_comes_to_last_name, names_along,
    starts_at_node,
};
use crate::server::{
    goto_definition, hover, included_location, knows_start, report, Definition, ItemAtCursor,
    Report,
};
use crate::symbol_laws::written_name;
use crate::text::joined;
use std::sync::Arc;
use vstd::prelude::*;

verus! {

/// The node that a path means which is written in some place: the one that is known under a
/// path from the root, or the one that a search from the place, or from what a label stands
/// at, comes to. Behind the label of a node there may be no further name.
pub open spec fn node_meant(
    context: ContextView,
    path: Path,
    ctx: ReferenceContext<'_>,
) -> Option<Arc<Node>> {
    let names = names_along(path);
    match path {
        Path::Absolute(_) => if context.nodes.contains_key(names) {
            Some(context.nodes[names])
        } else {
            None
        },
        Path::DotRelative(_) => match ctx {
            ReferenceContext::Node(node) => child_along(node.payload, names),
            ReferenceContext::Root => child_along(context.nodes[Seq::empty()].payload, names),
        },
        Path::LabelRelative(path) => if context.labels.contains_key(path.label@) {
            match context.labels[path.label@] {
                LabeledView::Node(node, _) => if names.len() == 0 {
                    Some(node)
                } else {
                    child_along(node.payload, names)
                },
                LabeledView::ReferencedNode(node) => child_along(node.payload, names),
                LabeledView::Property(_) => None,
            }
        } else {
            None
        },
    }
}

/// Whether a property is the one that a path means: the first one of that name in the node
/// that the path leads to.
pub open spec fn is_property_meant(
    context: ContextView,
    path: PropertyPath,
    ctx: ReferenceContext<'_>,
    property: Arc<Property>,
) -> bool {
    &&& node_meant(context, path.node_path, ctx) matches Some(node)
    &&& exists|i: int|
        {
            &&& 0 <= i < node.payload.items@.len()
            &&& #[trigger] node.payload.items@[i] == crate::ast::NodeItem::Property(property)
            &&& property.name.item@ == path.property_name@
            &&& forall|j: int|
                0 <= j < i ==> !is_property_named(
                    #[trigger] node.payload.items@[j],
                    path.property_name@,
                )
        }
}

proof fn lemma_node_meant(context: ContextView, path: Path, ctx: ReferenceContext<'_>)
    ensures
        context.node_at(path@, ctx) == node_meant(context, path, ctx),
{
}

proof fn lemma_property_meant(
    context: ContextView,
    path: PropertyPath,
    ctx: ReferenceContext<'_>,
    property: Arc<Property>,
)
    ensures
        is_property_meant(context, path, ctx, property) ==> context.property_at(path@, ctx) == Some(
            property,
        ),
        context.property_at(path@, ctx) matches Some(found) ==> is_property_meant(
            context,
            path,
            ctx,
            found,
        ),
{
    if let Some(node) = node_meant(context, path.node_path, ctx) {
        let items = node.payload.items@;
        let name = path.property_name@;
        lemma_first_property(items, name);
        if is_property_meant(context, path, ctx, property) {
            let i = choose|i: int|
                {
                    &&& 0 <= i < items.len()
                    &&& #[trigger] items[i] == crate::ast::NodeItem::Property(property)
                    &&& property.name.item@ == name
                    &&& forall|j: int|
                        0 <= j < i ==> !is_property_named(#[trigger] items[j], name)
                };
            assert(is_property_named(items[i], name));
            let found = crate::context::first_property(items, name)->0;
            let k = choose|k: int|
                0 <= k < items.len() && #[trigger] items[k] == crate::ast::NodeItem::Property(
                    found,
                ) && found.name.item@ == name && forall|j: int|
                    0 <= j < k ==> !is_property_named(#[trigger] items[j], name);
            assert(is_property_named(items[k], name));
            assert(i == k);
        }
    }
}

/// A path leads to the node that it means.
pub proof fn lemma_path_leads_to_node(
    context: &AnalysisContext,
    path: &Path,
    ctx: &ReferenceContext<'_>,
    r: Option<Arc<Node>>,
)
    requires
        call_ensures(AnalysisContext::get_node_by_path, (context, path, ctx), r),
    ensures
        r == node_meant(context@, *path, *ctx),
{
}

/// A label leads to a node exactly if it stands at one.
pub proof fn lemma_label_leads_to_node(
    context: &AnalysisContext,
    label: &str,
    r: Option<&Arc<Node>>,
)
    requires
        call_ensures(AnalysisContext::get_node_by_label, (context, label), r),
    ensures
        r matches Some(node) ==> context@.labels.contains_key(label@) && (
        context@.labels[label@] matches LabeledView::Node(labeled, _) && labeled == *node),
        r is None ==> !(context@.labels.contains_key(label@) && context@.labels[label@] is Node),
{
}

/// Where a thing of a name stands.
pub open spec fn place_of(token: Token) -> Option<(Span, FileId)> {
    Some((token.span, token.source))
}

/// Where to find what a reference means, in a context.
pub open spec fn is_place_meant(
    context: ContextView,
    reference: Reference,
    ctx: ReferenceContext<'_>,
    place: Option<(Span, FileId)>,
) -> bool {
    match reference {
        Reference::Label(label) => {
            let known = context.labels.contains_key(label@);
            &&& known && context.labels[label@] is Node ==> (
            context.labels[label@] matches LabeledView::Node(node, _) && place == place_of(
                node.name.token,
            ))
            &&& known && context.labels[label@] is ReferencedNode ==> (
            context.labels[label@] matches LabeledView::ReferencedNode(node)
                && match node.label {
                Some(own) => place == place_of(own.token),
                None => place is None,
            })
            &&& !known || context.labels[label@] is Property ==> place is None
        },
        Reference::Path(path) => match node_meant(context, path, ctx) {
            Some(node) => place == place_of(node.name.token),
            None => place is None,
        },
        Reference::PropertyPath(path) => {
            &&& forall|property: Arc<Property>| #[trigger]
                is_property_meant(context, path, ctx, property) ==> place == place_of(
                    property.name.token,
                )
            &&& place is Some ==> exists|property: Arc<Property>| #[trigger]
                is_property_meant(context, path, ctx, property)
        },
    }
}

/// What is said of what a reference means, in a context.
pub open spec fn is_text_meant(
    context: ContextView,
    reference: Reference,
    ctx: ReferenceContext<'_>,
    text: Option<Seq<char>>,
) -> bool {
    match reference {
        Reference::Label(label) => {
            let known = context.labels.contains_key(label@);
            &&& known && context.labels[label@] is Node ==> (
            context.labels[label@] matches LabeledView::Node(node, _) && text == Some(
                written_name(node.name.item),
            ))
            &&& known && context.labels[label@] is ReferencedNode ==> (
            context.labels[label@] matches LabeledView::ReferencedNode(node)
                && match node.label {
                Some(own) => text == Some(own.item@),
                None => text is None,
            })
            &&& !known || context.labels[label@] is Property ==> text is None
        },
        Reference::Path(path) => match node_meant(context, path, ctx) {
            Some(node) => text == Some(node.name.item.name@),
            None => text is None,
        },
        Reference::PropertyPath(path) => {
            &&& forall|property: Arc<Property>| #[trigger]
                is_property_meant(context, path, ctx, property) ==> text == Some(
                    shown_values(property.values@),
                )
            &&& text is Some ==> exists|property: Arc<Property>| #[trigger]
                is_property_meant(context, path, ctx, property)
        },
    }
}

/// The texts of values, with a comma and a blank between two of them.
pub open spec fn shown_values(values: Seq<crate::ast::PropertyValue>) -> Seq<char>
    decreases values.len(),
{
    if values.len() == 0 {
        Seq::empty()
    } else if values.len() == 1 {
        value_text(values[0])
    } else {
        shown_values(values.drop_last()) + seq![',', ' '] + value_text(values.last())
    }
}

proof fn lemma_shown_values(values: Seq<crate::ast::PropertyValue>)
    ensures
        joined(value_texts(values), ", "@) == shown_values(values),
    decreases values.len(),
{
    reveal_strlit(", ");
    assert(", "@ =~= seq![',', ' ']);
    if values.len() > 1 {
        lemma_shown_values(values.drop_last());
        assert(value_texts(values).drop_last() =~= value_texts(values.drop_last()));
    }
}

proof fn lemma_place_meant(context: ContextView, reference: Reference, ctx: ReferenceContext<'_>)
    ensures
        is_place_meant(context, reference, ctx, context.position_of(reference@, ctx)),
{
    match reference {
        Reference::Label(_) => {},
        Reference::Path(path) => {
            lemma_node_meant(context, path, ctx);
        },
        Reference::PropertyPath(path) => {
            assert forall|property: Arc<Property>| #[trigger]
                is_property_meant(context, path, ctx, property) implies context.position_of(
                reference@,
                ctx,
            ) == place_of(property.name.token) by {
                lemma_property_meant(context, path, ctx, property);
            }
            lemma_property_meant(context, path, ctx, arbitrary());
        },
    }
}

proof fn lemma_text_meant(context: ContextView, reference: Reference, ctx: ReferenceContext<'_>)
    ensures
        is_text_meant(context, reference, ctx, context.referred_text(reference@, ctx)),
{
    match reference {
        Reference::Label(_) => {},
        Reference::Path(path) => {
            lemma_node_meant(context, path, ctx);
        },
        Reference::PropertyPath(path) => {
            assert forall|property: Arc<Property>| #[trigger]
                is_property_meant(context, path, ctx, property) implies context.referred_text(
                reference@,
                ctx,
            ) == Some(shown_values(property.values@)) by {
                lemma_property_meant(context, path, ctx, property);
                lemma_shown_values(property.values@);
            }
            lemma_property_meant(context, path, ctx, arbitrary());
        },
    }
}

/// The position of a reference is where the name of the node or property stands that it
/// means, or where the label stands of a node that is given by a reference. It has a
/// position exactly if it means one of these.
pub proof fn lemma_position_is_of_thing_meant(
    context: &AnalysisContext,
    reference: &Reference,
    ctx: &ReferenceContext<'_>,
    r: Option<(Span, FileId)>,
)
    requires
        call_ensures(AnalysisContext::get_position, (context, reference, ctx), r),
    ensures
        is_place_meant(context@, *reference, *ctx, r),
{
    lemma_place_meant(context@, *reference, *ctx);
}

/// What is said of a reference is the name of the node that it means, without the unit
/// address if it is a path; the label of a node that is given by a reference; or the values
/// of the property that it means.
pub proof fn lemma_text_is_of_thing_meant(
    context: &AnalysisContext,
    reference: &Reference,
    ctx: &ReferenceContext<'_>,
    r: Option<String>,
)
    requires
        call_ensures(AnalysisContext::get_referred, (context, reference, ctx), r),
    ensures
        is_text_meant(
            context@,
            *reference,
            *ctx,
            match r {
                Some(text) => Some(text@),
                None => None,
            },
        ),
{
    lemma_text_meant(context@, *reference, *ctx);
}

/// The node that a path with a name means has the last name of the path.
pub proof fn lemma_node_meant_is_named(
    context: ContextView,
    path: Path,
    ctx: ReferenceContext<'_>,
)
    requires
        nodes_are_named(context),
        names_along(path).len() > 0,
    ensures
        node_meant(context, path, ctx) matches Some(node) ==> node.name.item@
            == names_along(path).last(),
{
    let names = names_along(path);
    match path {
        Path::Absolute(_) => {},
        Path::DotRelative(_) => {
            match ctx {
                ReferenceContext::Node(node) => {
                    lemma_search_comes_to_last_name(node.payload, names);
                },
                ReferenceContext::Root => {
                    lemma_search_comes_to_last_name(
                        payload_of(context.nodes[Seq::empty()]),
                        names,
                    );
                },
            }
        },
        Path::LabelRelative(path) => {
            if context.labels.contains_key(path.label@) {
                match context.labels[path.label@] {
                    LabeledView::Node(node, _) => {
                        lemma_search_comes_to_last_name(payload_of(node), names);
                    },
                    LabeledView::ReferencedNode(node) => {
                        lemma_search_comes_to_last_name(payload_of_referenced(node), names);
                    },
                    LabeledView::Property(_) => {},
                }
            }
        },
    }
}

spec fn payload_of_referenced(node: Arc<crate::ast::ReferencedNode>) -> crate::ast::NodePayload {
    node.payload
}

/// Where a path with a name leads to a node, what is said of a reference by it is what stands
/// before the `@` in the last name, whatever stands behind it.
pub proof fn lemma_text_is_last_name(
    context: &AnalysisContext,
    path: Path,
    ctx: &ReferenceContext<'_>,
    r: Option<String>,
)
    requires
        call_ensures(
            AnalysisContext::get_referred,
            (context, &Reference::Path(path), ctx),
            r,
        ),
        nodes_are_named(context@),
        names_along(path).len() > 0,
    ensures
        r matches Some(text) ==> text@ == names_along(path).last().name,
        r is Some <==> node_meant(context@, path, *ctx) is Some,
{
    lemma_text_is_of_thing_meant(context, &Reference::Path(path), ctx, r);
    lemma_node_meant_is_named(context@, path, *ctx);
}

/// What is known of the device tree of a file is what its root holds, which parents lead to
/// from the file and which has none itself.
pub open spec fn is_known_of(project: ProjectView, file: FileId, context: ContextView) -> bool {
    exists|steps: nat|
        {
            &&& #[trigger] ancestor(project.files, file, steps) matches Some(root)
            &&& project.files[root].parent is None
            &&& project.files[root].status == StatusView::Root(context)
        }
}

proof fn lemma_known_of(project: ProjectView, file: FileId, context: ContextView)
    ensures
        project.analysis_of(file) == Some(context) <==> is_known_of(project, file, context),
{
    if is_known_of(project, file, context) {
        let steps = choose|steps: nat|
            {
                &&& #[trigger] ancestor(project.files, file, steps) matches Some(root)
                &&& project.files[root].parent is None
                &&& project.files[root].status == StatusView::Root(context)
            };
        assert(ends_after(project.files, file, steps));
        lemma_root_at_end(project.files, file, steps);
    }
    if project.analysis_of(file) == Some(context) {
        let steps = choose|steps: nat| ends_after(project.files, file, steps);
        assert(ends_after(project.files, file, steps));
        assert(ancestor(project.files, file, steps) is Some);
    }
}

/// What is known of the device tree of a file is what its root holds.
pub proof fn lemma_analysis_is_of_root(
    project: &Project,
    path: FileId,
    r: Option<&AnalysisContext>,
    context: ContextView,
)
    requires
        call_ensures(Project::get_analysis, (project, path), r),
    ensures
        (r matches Some(known) && known@ == context) <==> is_known_of(project@, path, context),
{
    lemma_known_of(project@, path, context);
}

/// From a reference an editor goes to where the thing stands that it means in the device
/// tree of the file, and nowhere if it means nothing or nothing is known; from an inclusion
/// to the file that it names; and nowhere from anything else.
pub proof fn lemma_goes_to_thing_meant(
    project: &Project,
    path: FileId,
    item: &ItemAtCursor<'_>,
    r: Definition,
    context: ContextView,
)
    requires
        call_ensures(goto_definition, (project, path, item), r),
    ensures
        match *item {
            ItemAtCursor::Reference(reference, ctx) => {
                &&& is_known_of(project@, path, context) ==> match r {
                    Definition::Location(file, span) => is_place_meant(
                        context,
                        *reference,
                        ctx,
                        Some((span, file)),
                    ),
                    Definition::Nowhere => is_place_meant(context, *reference, ctx, None),
                    Definition::Search(_, _) => false,
                }
                &&& (forall|any: ContextView| !is_known_of(project@, path, any)) ==> r
                    is Nowhere
            },
            ItemAtCursor::Include(inclusion) => r matches Definition::Search(name, span) && name@
                == inclusion.file_name.item@ && span == span_of_inclusion(*inclusion),
            ItemAtCursor::Label(_) => r is Nowhere,
            ItemAtCursor::Other => r is Nowhere,
        },
{
    if let ItemAtCursor::Reference(reference, ctx) = item {
        lemma_known_of(project@, path, context);
        lemma_place_meant(context, **reference, *ctx);
        if let Some(known) = project@.analysis_of(path) {
            lemma_known_of(project@, path, known);
        }
    }
}

/// An editor shows what there is to say of the thing that a reference means in the device
/// tree of the file, and nothing if it means nothing or nothing is known; the name of a
/// label; the name of an included file; and nothing of anything else.
pub proof fn lemma_shows_thing_meant(
    project: &Project,
    path: FileId,
    item: &ItemAtCursor<'_>,
    r: Option<String>,
    context: ContextView,
)
    requires
        call_ensures(hover, (project, path, item), r),
    ensures
        match *item {
            ItemAtCursor::Reference(reference, ctx) => {
                &&& is_known_of(project@, path, context) ==> is_text_meant(
                    context,
                    *reference,
                    ctx,
                    match r {
                        Some(text) => Some(text@),
                        None => None,
                    },
                )
                &&& (forall|any: ContextView| !is_known_of(project@, path, any)) ==> r is None
            },
            ItemAtCursor::Include(inclusion) => r matches Some(text) && text@
                == inclusion.file_name.item@,
            ItemAtCursor::Label(label) => r matches Some(text) && text@ == label.item@,
            ItemAtCursor::Other => r is None,
        },
{
    if let ItemAtCursor::Reference(reference, ctx) = item {
        lemma_known_of(project@, path, context);
        lemma_text_meant(context, **reference, *ctx);
        if let Some(known) = project@.analysis_of(path) {
            lemma_known_of(project@, path, known);
        }
    }
}

/// From an inclusion an editor goes to the file, at the span of the inclusion, exactly if
/// the file was found.
pub proof fn lemma_goes_to_found_file(outcome: Result<FileId, IoError>, span: Span, r: Definition)
    requires
        call_ensures(included_location, (outcome, span), r),
    ensures
        outcome matches Ok(file) ==> r == Definition::Location(file, span),
        outcome is Err ==> r is Nowhere,
{
}

/// It is known where a reference starts unless it starts at the root node, the device tree
/// of the file is known and has none.
pub proof fn lemma_start_is_known(
    project: &Project,
    path: FileId,
    item: &ItemAtCursor<'_>,
    r: bool,
)
    requires
        call_ensures(knows_start, (project, path, item), r),
    ensures
        !r <==> (*item matches ItemAtCursor::Reference(reference, ctx) && starts_at_node(*reference)
            && ctx is Root && exists|context: ContextView| #[trigger]
            is_known_of(project@, path, context) && !context.nodes.contains_key(Seq::empty())),
{
    if let Some(known) = project@.analysis_of(path) {
        lemma_known_of(project@, path, known);
        assert forall|context: ContextView| #[trigger]
            is_known_of(project@, path, context) implies context == known by {
            lemma_known_of(project@, path, context);
        }
    } else {
        assert forall|context: ContextView| !#[trigger] is_known_of(project@, path, context) by {
            lemma_known_of(project@, path, context);
        }
    }
}

/// A report tells of a finding as it is: where it is, what it says, and the name and the
/// severity of its kind.
pub proof fn lemma_report_tells_of_finding(
    diagnostic: &Diagnostic,
    severities: &SeverityMap,
    name: &str,
    r: Report,
    other: &Diagnostic,
    other_report: Report,
)
    requires
        call_ensures(report, (diagnostic, severities, name), r),
        call_ensures(report, (other, severities, name), other_report),
    ensures
        r.range == diagnostic.span,
        r.message@ == diagnostic.message@,
        r.source@ == name@,
        r.severity == severities.severity(diagnostic.kind),
        r.code@ == other_report.code@ <==> diagnostic.kind == other.kind,
{
    crate::error_codes::lemma_code_names_differ(diagnostic.kind, other.kind);
}

} // verus!
