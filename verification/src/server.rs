//! What an editor is told: symbols, texts to show, positions to go to, and findings.
use crate::ast::{
    AnyDirective, DtsFile, Include, Node, NodeItem, NodePayload, Primary, Reference, ReferencedNode,
    WithToken,
};
use crate::context::ReferenceContext;
use crate::data::{FileId, HasSpan, IoError, Span, Token};
use crate::diagnostics::Diagnostic;
use crate::error_codes::{spec_code_name, Severity, SeverityMap};
use crate::path::{name_text, reference_text};
use crate::project::Project;
use vstd::prelude::*;

verus! {

/// What kind of thing a symbol stands for.
#[derive(Clone, Copy, PartialEq, Eq, Debug, Structural)]
pub enum SymbolKind {
    Property,
    Module,
    File,
    Field,
}

/// A symbol of a source file.
#[derive(PartialEq, Eq, Debug)]
pub struct DocumentSymbol {
    pub name: String,
    pub kind: SymbolKind,
    /// Whether the thing is deleted.
    pub deprecated: bool,
    pub range: Span,
    pub selection_range: Span,
    pub children: Option<Vec<DocumentSymbol>>,
}

/// Whether a symbol without children says the given.
pub open spec fn is_leaf(
    symbol: DocumentSymbol,
    name: Seq<char>,
    kind: SymbolKind,
    deprecated: bool,
    range: Span,
    selection_range: Span,
) -> bool {
    &&& symbol.name@ == name
    &&& symbol.kind == kind
    &&& symbol.deprecated == deprecated
    &&& symbol.range == range
    &&& symbol.selection_range == selection_range
    &&& symbol.children is None
}

/// The span from the start of a token to the end of something.
pub open spec fn span_from<T>(token: Token, item: WithToken<T>) -> Span {
    Span { start: token.span.start, end: item.token.span.end }
}

/// Whether a symbol stands for an item of a node.
pub open spec fn is_item_symbol(symbol: DocumentSymbol, item: NodeItem) -> bool
    decreases item,
{
    match item {
        NodeItem::Property(property) => is_leaf(
            symbol,
            property.name.item@,
            SymbolKind::Property,
            false,
            property.spec_span(),
            property.name.token.span,
        ),
        NodeItem::Node(node) => is_node_symbol(symbol, *node),
        NodeItem::DeletedNode(token, name) => is_leaf(
            symbol,
            name_text(name.item@),
            SymbolKind::Module,
            true,
            span_from(token, name),
            name.token.span,
        ),
        NodeItem::DeletedProperty(token, name) => is_leaf(
            symbol,
            name.item@,
            SymbolKind::Property,
            true,
            span_from(token, name),
            name.token.span,
        ),
    }
}

/// Whether symbols stand for the items of a node, one for each.
pub open spec fn are_item_symbols(symbols: Seq<DocumentSymbol>, items: Seq<NodeItem>) -> bool
    decreases items,
{
    &&& symbols.len() == items.len()
    &&& items.len() > 0 ==> {
        &&& are_item_symbols(symbols.drop_last(), items.drop_last())
        &&& is_item_symbol(symbols.last(), items.last())
    }
}

/// Whether a symbol stands for a node. It is named without the unit address.
pub open spec fn is_node_symbol(symbol: DocumentSymbol, node: Node) -> bool
    decreases node,
{
    &&& symbol.name@ == node.name.item.name@
    &&& symbol.kind == SymbolKind::Module
    &&& !symbol.deprecated
    &&& symbol.range == node.spec_span()
    &&& symbol.selection_range == node.name.token.span
    &&& symbol.children matches Some(children)
    &&& are_item_symbols(children@, node.payload.items@)
}

/// Whether a symbol stands for a node that is given by a reference.
pub open spec fn is_referenced_symbol(symbol: DocumentSymbol, node: ReferencedNode) -> bool {
    &&& symbol.name@ == reference_text(node.reference.item@)
    &&& symbol.kind == SymbolKind::Module
    &&& !symbol.deprecated
    &&& symbol.range == node.spec_span()
    &&& symbol.selection_range == node.reference.token.span
    &&& symbol.children matches Some(children)
    &&& are_item_symbols(children@, node.payload.items@)
}

/// Whether an element of a file has a symbol.
pub open spec fn has_symbol(primary: Primary) -> bool {
    match primary {
        Primary::Root(_) => true,
        Primary::ReferencedNode(_) => true,
        Primary::Directive(AnyDirective::Include(_)) => true,
        Primary::Directive(AnyDirective::DeletedNode(_, _)) => true,
        Primary::Directive(AnyDirective::OmitIfNoRef(_, _)) => true,
        _ => false,
    }
}

/// Whether a symbol stands for an element of a file.
pub open spec fn is_primary_symbol(symbol: DocumentSymbol, primary: Primary) -> bool {
    match primary {
        Primary::Root(node) => is_node_symbol(symbol, *node),
        Primary::ReferencedNode(node) => is_referenced_symbol(symbol, *node),
        Primary::Directive(AnyDirective::Include(inclusion)) => is_leaf(
            symbol,
            "include "@ + inclusion.file_name.item@,
            SymbolKind::File,
            false,
            inclusion.spec_span(),
            inclusion.file_name.token.span,
        ),
        Primary::Directive(AnyDirective::DeletedNode(token, reference)) => is_leaf(
            symbol,
            reference_text(reference.item@),
            SymbolKind::Module,
            true,
            span_from(token, reference),
            reference.token.span,
        ),
        Primary::Directive(AnyDirective::OmitIfNoRef(token, reference)) => is_leaf(
            symbol,
            reference_text(reference.item@),
            SymbolKind::Field,
            false,
            span_from(token, reference),
            reference.token.span,
        ),
        _ => false,
    }
}

/// Whether symbols stand for the elements of a file, one for each that has one.
pub open spec fn are_file_symbols(symbols: Seq<DocumentSymbol>, primaries: Seq<Primary>) -> bool
    decreases primaries.len(),
{
    if primaries.len() == 0 {
        symbols.len() == 0
    } else if has_symbol(primaries.last()) {
        &&& symbols.len() > 0
        &&& are_file_symbols(symbols.drop_last(), primaries.drop_last())
        &&& is_primary_symbol(symbols.last(), primaries.last())
    } else {
        are_file_symbols(symbols, primaries.drop_last())
    }
}

/// A symbol without children.
fn leaf(
    name: String,
    kind: SymbolKind,
    deprecated: bool,
    range: Span,
    selection_range: Span,
) -> (r: DocumentSymbol)
    ensures
        is_leaf(r, name@, kind, deprecated, range, selection_range),
{
    DocumentSymbol { name, kind, deprecated, range, selection_range, children: None }
}

/// The symbols of the items of a node.
fn node_payload_to_symbol(payload: &NodePayload) -> (r: Vec<DocumentSymbol>)
    ensures
        are_item_symbols(r@, payload.items@),
    decreases payload,
{
    let items = &payload.items;
    let mut children: Vec<DocumentSymbol> = Vec::new();
    let mut i: usize = 0;
    while i < items.len()
        invariant
            i <= items@.len(),
            items == payload.items,
            are_item_symbols(children@, items@.take(i as int)),
        decreases items@.len() - i,
    {
        let symbol = match &items[i] {
            NodeItem::Property(property) => leaf(
                property.name.item.clone(),
                SymbolKind::Property,
                false,
                property.span(),
                property.name.span(),
            ),
            NodeItem::Node(node) => node_to_symbol(node),
            NodeItem::DeletedNode(token, name) => leaf(
                name.item.to_string(),
                SymbolKind::Module,
                true,
                Span::new(token.start(), name.end()),
                name.span(),
            ),
            NodeItem::DeletedProperty(token, name) => leaf(
                name.item.clone(),
                SymbolKind::Property,
                true,
                Span::new(token.start(), name.end()),
                name.span(),
            ),
        };
        assert(is_item_symbol(symbol, items@[i as int]));
        let ghost before = children@;
        children.push(symbol);
        assert(children@.drop_last() =~= before);
        assert(items@.take(i + 1).drop_last() =~= items@.take(i as int));
        i += 1;
    }
    assert(items@.take(i as int) =~= items@);
    children
}

/// The symbol of a node.
fn node_to_symbol(node: &Node) -> (r: DocumentSymbol)
    ensures
        is_node_symbol(r, *node),
    decreases node,
{
    DocumentSymbol {
        name: node.name.item.name.clone(),
        kind: SymbolKind::Module,
        deprecated: false,
        range: node.span(),
        selection_range: node.name.span(),
        children: Some(node_payload_to_symbol(&node.payload)),
    }
}

/// The symbol of an element of a file.
fn primary_to_symbol(primary: &Primary) -> (r: Option<DocumentSymbol>)
    ensures
        match r {
            Some(symbol) => has_symbol(*primary) && is_primary_symbol(symbol, *primary),
            None => !has_symbol(*primary),
        },
{
    match primary {
        Primary::Root(node) => Some(node_to_symbol(node)),
        Primary::ReferencedNode(node) => Some(
            DocumentSymbol {
                name: node.reference.item.to_string(),
                kind: SymbolKind::Module,
                deprecated: false,
                range: node.span(),
                selection_range: node.reference.span(),
                children: Some(node_payload_to_symbol(&node.payload)),
            },
        ),
        Primary::Directive(AnyDirective::Include(inclusion)) => {
            let mut name = "include ".to_owned();
            name.append(inclusion.file_name.item.as_str());
            Some(
                leaf(
                    name,
                    SymbolKind::File,
                    false,
                    inclusion.span(),
                    inclusion.file_name.span(),
                ),
            )
        },
        Primary::Directive(AnyDirective::DeletedNode(token, reference)) => Some(
            leaf(
                reference.item.to_string(),
                SymbolKind::Module,
                true,
                Span::new(token.start(), reference.end()),
                reference.span(),
            ),
        ),
        Primary::Directive(AnyDirective::OmitIfNoRef(token, reference)) => Some(
            leaf(
                reference.item.to_string(),
                SymbolKind::Field,
                false,
                Span::new(token.start(), reference.end()),
                reference.span(),
            ),
        ),
        _ => None,
    }
}

/// The symbols of a file.
pub fn document_symbols(file: &DtsFile) -> (r: Vec<DocumentSymbol>)
    ensures
        are_file_symbols(r@, file.elements@),
{
    let primaries = &file.elements;
    let mut symbols: Vec<DocumentSymbol> = Vec::new();
    let mut i: usize = 0;
    while i < primaries.len()
        invariant
            i <= primaries@.len(),
            primaries == file.elements,
            are_file_symbols(symbols@, primaries@.take(i as int)),
        decreases primaries@.len() - i,
    {
        let ghost before = symbols@;
        if let Some(symbol) = primary_to_symbol(&primaries[i]) {
            symbols.push(symbol);
            assert(symbols@.drop_last() =~= before);
        }
        assert(primaries@.take(i + 1).drop_last() =~= primaries@.take(i as int));
        i += 1;
    }
    assert(primaries@.take(i as int) =~= primaries@);
    symbols
}

/// The symbols of the file that a path leads to, given its canonical path if it has
/// one.
pub fn document_symbol(project: &Project, canonical: Option<FileId>) -> (r: Option<
    Vec<DocumentSymbol>,
>)
    ensures
        match r {
            Some(symbols) => {
                &&& canonical matches Some(path)
                &&& project@.files.contains_key(path)
                &&& project@.files[path].file matches Some(file)
                &&& are_file_symbols(symbols@, file.elements@)
            },
            None => !(canonical matches Some(path) && project@.files.contains_key(path)
                && project@.files[path].file is Some),
        },
{
    match project.get_root(canonical) {
        Some(file) => Some(document_symbols(file)),
        None => None,
    }
}

/// What stands at a position of a file.
pub enum ItemAtCursor<'a> {
    Reference(&'a Reference, ReferenceContext<'a>),
    Label(&'a WithToken<String>),
    Include(&'a Include),
    /// Something that there is nothing to say of.
    Other,
}

/// Whether it is known where the path of a reference at a position starts.
pub open spec fn cursor_start_known(
    project: Project,
    path: FileId,
    item: ItemAtCursor<'_>,
) -> bool {
    match item {
        ItemAtCursor::Reference(reference, ctx) => project@.analysis_of(path) matches Some(
            context,
        ) ==> context.reference_start_known(reference@, ctx),
        _ => true,
    }
}

/// Whether it is known where the path of a reference at a position starts.
pub fn knows_start(project: &Project, path: FileId, item: &ItemAtCursor<'_>) -> (r: bool)
    ensures
        r == cursor_start_known(*project, path, *item),
{
    match item {
        ItemAtCursor::Reference(reference, ctx) => match project.get_analysis(path) {
            Some(context) => context.knows_start(reference, ctx),
            None => true,
        },
        _ => true,
    }
}

/// The text to show for what stands at a position of a file.
pub fn hover(project: &Project, path: FileId, item: &ItemAtCursor<'_>) -> (r: Option<String>)
    requires
        cursor_start_known(*project, path, *item),
    ensures
        match *item {
            ItemAtCursor::Reference(reference, ctx) => match r {
                Some(text) => project@.analysis_of(path) matches Some(context)
                    && context.referred_text(reference@, ctx) == Some(text@),
                None => !(project@.analysis_of(path) matches Some(context)
                    && context.referred_text(reference@, ctx) is Some),
            },
            ItemAtCursor::Label(name) => r matches Some(text) && text@ == name.item@,
            ItemAtCursor::Include(inclusion) => r matches Some(text) && text@
                == inclusion.file_name.item@,
            ItemAtCursor::Other => r is None,
        },
{
    match item {
        ItemAtCursor::Reference(reference, ctx) => project.document_reference(
            path,
            reference,
            ctx,
        ),
        ItemAtCursor::Label(name) => Some(name.item.clone()),
        ItemAtCursor::Include(inclusion) => Some(inclusion.file_name()),
        ItemAtCursor::Other => None,
    }
}

/// Where to go from a position.
#[derive(PartialEq, Eq, Debug)]
pub enum Definition {
    /// Nowhere.
    Nowhere,
    /// To a part of a file.
    Location(FileId, Span),
    /// To the file of a name, which is to be searched for; see
    /// [`included_location`].
    Search(String, Span),
}

/// Where to go from what stands at a position of a file.
pub fn goto_definition(project: &Project, path: FileId, item: &ItemAtCursor<'_>) -> (r: Definition)
    requires
        cursor_start_known(*project, path, *item),
    ensures
        match *item {
            ItemAtCursor::Reference(reference, ctx) => match project@.analysis_of(path) {
                Some(context) => match context.position_of(reference@, ctx) {
                    Some((span, file)) => r == Definition::Location(file, span),
                    None => r == Definition::Nowhere,
                },
                None => r == Definition::Nowhere,
            },
            ItemAtCursor::Include(inclusion) => r matches Definition::Search(name, span) && name@
                == inclusion.file_name.item@ && span == inclusion.spec_span(),
            _ => r == Definition::Nowhere,
        },
{
    match item {
        ItemAtCursor::Reference(reference, ctx) => match project.get_node_position(
            path,
            reference,
            ctx,
        ) {
            Some((span, file)) => Definition::Location(file, span),
            None => Definition::Nowhere,
        },
        ItemAtCursor::Include(inclusion) => Definition::Search(
            inclusion.file_name(),
            inclusion.span(),
        ),
        _ => Definition::Nowhere,
    }
}

/// Where to go from an inclusion with the given span, once the file has been searched
/// for.
pub fn included_location(outcome: Result<FileId, IoError>, span: Span) -> (r: Definition)
    ensures
        r == match outcome {
            Ok(file) => Definition::Location(file, span),
            Err(_) => Definition::Nowhere,
        },
{
    match outcome {
        Ok(file) => Definition::Location(file, span),
        Err(_) => Definition::Nowhere,
    }
}

/// A finding as an editor is told of it.
#[derive(PartialEq, Eq, Debug)]
pub struct Report {
    pub range: Span,
    pub message: String,
    pub code: String,
    pub severity: Severity,
    pub source: String,
}

/// Tells of a finding, in the name of a server.
pub fn report(diagnostic: &Diagnostic, severities: &SeverityMap, name: &str) -> (r: Report)
    ensures
        r.range == diagnostic@.span,
        r.message@ == diagnostic@.message,
        r.code@ == spec_code_name(diagnostic@.kind),
        r.severity == severities.severity(diagnostic@.kind),
        r.source@ == name@,
{
    Report {
        range: diagnostic.span,
        message: diagnostic.message.clone(),
        code: diagnostic.kind.as_str().to_owned(),
        severity: diagnostic.severity(severities),
        source: name.to_owned(),
    }
}

/// The message that a URL is not the path of a file.
pub fn invalid_url_message(url: &str) -> (r: String)
    ensures
        r@ == "Url "@ + url@ + " is not a valid file path"@,
{
    let mut r = "Url ".to_owned();
    r.append(url);
    r.append(" is not a valid file path");
    r
}

} // verus!
