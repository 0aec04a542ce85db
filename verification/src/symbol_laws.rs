//! What the symbols of a source file tell of it.
use crate::ast::{
    AnyDirective, DtsFile, Node, NodeItem, NodeName, Primary, Reference, ReferencedNode,
};
use crate::data::{FileId, Span, Token};
use crate::finding_laws::{span_of_inclusion, span_of_property};
use crate::path::reference_text;
use crate::place_laws::payload_of;
use crate::project::Project;
use crate::server::{
    are_file_symbols, are_item_symbols, document_symbol, document_symbols, is_item_symbol,
    is_primary_symbol, DocumentSymbol, SymbolKind,
};
use std::sync::Arc;
use vstd::prelude::*;

verus! {

/// A name as it is written: with the unit address, if it has one, behind an `@`.
pub open spec fn written_name(name: NodeName) -> Seq<char> {
    match name.unit_address {
        Some(address) => name.name@ + seq!['@'] + address@,
        None => name.name@,
    }
}

/// Where a node stands, with its label.
pub open spec fn span_of_node(node: Node) -> Span {
    Span {
        start: match node.label {
            Some(label) => label.token.span.start,
            None => node.name.token.span.start,
        },
        end: node.payload.end.span.end,
    }
}

/// Whether a symbol that has no symbols below tells of something with a name.
pub open spec fn tells_of(
    symbol: DocumentSymbol,
    name: Seq<char>,
    kind: SymbolKind,
    is_deleted: bool,
    range: Span,
    selection: Span,
) -> bool {
    &&& symbol.name@ == name
    &&& symbol.kind == kind
    &&& symbol.deprecated == is_deleted
    &&& symbol.range == range
    &&& symbol.selection_range == selection
}

/// The span from the start of one token to the end of another.
pub open spec fn span_over(from: Token, to: Token) -> Span {
    Span { start: from.span.start, end: to.span.end }
}

/// Whether a symbol tells of an item of a node. What is in a node shows only in the symbols
/// below; of these there are as many as there are items in it.
pub open spec fn tells_of_item(symbol: DocumentSymbol, item: NodeItem) -> bool {
    match item {
        NodeItem::Property(property) => symbol.children is None && tells_of(
            symbol,
            property.name.item@,
            SymbolKind::Property,
            false,
            span_of_property(*property),
            property.name.token.span,
        ),
        NodeItem::Node(node) => tells_of_node(symbol, *node),
        NodeItem::DeletedNode(token, name) => symbol.children is None && tells_of(
            symbol,
            written_name(name.item),
            SymbolKind::Module,
            true,
            span_over(token, name.token),
            name.token.span,
        ),
        NodeItem::DeletedProperty(token, name) => symbol.children is None && tells_of(
            symbol,
            name.item@,
            SymbolKind::Property,
            true,
            span_over(token, name.token),
            name.token.span,
        ),
    }
}

/// Whether a symbol tells of a node: it has the name without the unit address, and one
/// symbol below for each item.
pub open spec fn tells_of_node(symbol: DocumentSymbol, node: Node) -> bool {
    &&& tells_of(
        symbol,
        node.name.item.name@,
        SymbolKind::Module,
        false,
        span_of_node(node),
        node.name.token.span,
    )
    &&& symbol.children matches Some(children)
    &&& children@.len() == node.payload.items@.len()
}

/// Whether a symbol tells of a node that is given by a reference.
pub open spec fn tells_of_referenced(symbol: DocumentSymbol, node: ReferencedNode) -> bool {
    &&& tells_of(
        symbol,
        reference_text(node.reference.item@),
        SymbolKind::Module,
        false,
        span_over(node.reference.token, node.payload.end),
        node.reference.token.span,
    )
    &&& symbol.children matches Some(children)
    &&& children@.len() == node.payload.items@.len()
}

/// Whether a symbol tells of an element of a file.
pub open spec fn tells_of_primary(symbol: DocumentSymbol, primary: Primary) -> bool {
    match primary {
        Primary::Root(node) => tells_of_node(symbol, *node),
        Primary::ReferencedNode(node) => tells_of_referenced(symbol, *node),
        Primary::Directive(AnyDirective::Include(inclusion)) => symbol.children is None && tells_of(
            symbol,
            "include "@ + inclusion.file_name.item@,
            SymbolKind::File,
            false,
            span_of_inclusion(inclusion),
            inclusion.file_name.token.span,
        ),
        Primary::Directive(AnyDirective::DeletedNode(token, reference)) => symbol.children is None
            && tells_of(
            symbol,
            reference_text(reference.item@),
            SymbolKind::Module,
            true,
            span_over(token, reference.token),
            reference.token.span,
        ),
        Primary::Directive(AnyDirective::OmitIfNoRef(token, reference)) => symbol.children is None
            && tells_of(
            symbol,
            reference_text(reference.item@),
            SymbolKind::Field,
            false,
            span_over(token, reference.token),
            reference.token.span,
        ),
        _ => false,
    }
}

/// Whether an element of a file is one that symbols tell of: a node, an inclusion, a
/// deletion, or a node that may be omitted.
pub open spec fn is_told_of(primary: Primary) -> bool {
    match primary {
        Primary::Root(_) => true,
        Primary::ReferencedNode(_) => true,
        Primary::Directive(AnyDirective::Include(_)) => true,
        Primary::Directive(AnyDirective::DeletedNode(_, _)) => true,
        Primary::Directive(AnyDirective::OmitIfNoRef(_, _)) => true,
        Primary::Directive(AnyDirective::DtsHeader(_)) => false,
        Primary::Directive(AnyDirective::Plugin(_)) => false,
        Primary::Directive(AnyDirective::Memreserve(_)) => false,
        Primary::CStyleInclude(_) => false,
    }
}

/// The items of the node that an element of a file is.
pub open spec fn items_of(primary: Primary) -> Option<Seq<NodeItem>> {
    match primary {
        Primary::Root(node) => Some(node.payload.items@),
        Primary::ReferencedNode(node) => Some(node.payload.items@),
        _ => None,
    }
}

/// The item that places lead to among items: each but the last is the place of a node.
pub open spec fn item_along(items: Seq<NodeItem>, places: Seq<int>) -> Option<NodeItem>
    decreases places.len(),
{
    if places.len() == 0 || !(0 <= places[0] < items.len()) {
        None
    } else if places.len() == 1 {
        Some(items[places[0]])
    } else {
        match items[places[0]] {
            NodeItem::Node(node) => item_along(node.payload.items@, places.skip(1)),
            _ => None,
        }
    }
}

/// The symbol that places lead to among symbols.
pub open spec fn symbol_along(symbols: Seq<DocumentSymbol>, places: Seq<int>) -> Option<
    DocumentSymbol,
>
    decreases places.len(),
{
    if places.len() == 0 || !(0 <= places[0] < symbols.len()) {
        None
    } else if places.len() == 1 {
        Some(symbols[places[0]])
    } else {
        match symbols[places[0]].children {
            Some(children) => symbol_along(children@, places.skip(1)),
            None => None,
        }
    }
}

proof fn lemma_one_for_each(symbols: Seq<DocumentSymbol>, items: Seq<NodeItem>)
    requires
        are_item_symbols(symbols, items),
    ensures
        symbols.len() == items.len(),
        forall|i: int| 0 <= i < items.len() ==> is_item_symbol(#[trigger] symbols[i], items[i]),
    decreases items.len(),
{
    if items.len() > 0 {
        lemma_one_for_each(symbols.drop_last(), items.drop_last());
        assert forall|i: int| 0 <= i < items.len() implies is_item_symbol(
            #[trigger] symbols[i],
            items[i],
        ) by {
            if i < items.len() - 1 {
                assert(is_item_symbol(symbols.drop_last()[i], items.drop_last()[i]));
            }
        }
    }
}

proof fn lemma_item_told(symbol: DocumentSymbol, item: NodeItem)
    requires
        is_item_symbol(symbol, item),
    ensures
        tells_of_item(symbol, item),
{
    if let NodeItem::Node(node) = item {
        lemma_one_for_each((symbol.children->0)@, node.payload.items@);
    }
}

/// Symbols for items tell of each item at every depth, and of nothing else.
proof fn lemma_told_below(
    symbols: Seq<DocumentSymbol>,
    items: Seq<NodeItem>,
    places: Seq<int>,
)
    requires
        are_item_symbols(symbols, items),
    ensures
        match item_along(items, places) {
            Some(item) => symbol_along(symbols, places) matches Some(symbol) && tells_of_item(
                symbol,
                item,
            ),
            None => symbol_along(symbols, places) is None,
        },
    decreases places.len(),
{
    lemma_one_for_each(symbols, items);
    if places.len() > 0 && 0 <= places[0] < items.len() {
        assert(is_item_symbol(symbols[places[0]], items[places[0]]));
        lemma_item_told(symbols[places[0]], items[places[0]]);
        if places.len() > 1 {
            if let NodeItem::Node(node) = items[places[0]] {
                lemma_told_below(
                    (symbols[places[0]].children->0)@,
                    node.payload.items@,
                    places.skip(1),
                );
            }
        }
    }
}

proof fn lemma_file_symbols(symbols: Seq<DocumentSymbol>, primaries: Seq<Primary>)
    requires
        are_file_symbols(symbols, primaries),
    ensures
        ({
            let told = primaries.filter(|primary: Primary| is_told_of(primary));
            &&& symbols.len() == told.len()
            &&& forall|i: int|
                0 <= i < told.len() ==> is_primary_symbol(#[trigger] symbols[i], told[i])
                    && is_told_of(told[i])
        }),
    decreases primaries.len(),
{
    reveal(Seq::filter);
    let is_told = |primary: Primary| is_told_of(primary);
    let told = primaries.filter(is_told);
    if primaries.len() > 0 {
        let fewer = primaries.drop_last();
        if is_told_of(primaries.last()) {
            lemma_file_symbols(symbols.drop_last(), fewer);
            assert(told =~= fewer.filter(is_told).push(primaries.last()));
            assert forall|i: int| 0 <= i < told.len() implies is_primary_symbol(
                #[trigger] symbols[i],
                told[i],
            ) && is_told_of(told[i]) by {
                if i < told.len() - 1 {
                    assert(is_primary_symbol(symbols.drop_last()[i], fewer.filter(is_told)[i]));
                }
            }
        } else {
            lemma_file_symbols(symbols, fewer);
            assert(told =~= fewer.filter(is_told));
        }
    }
}

/// The symbols of a file tell of its nodes, inclusions, deletions and nodes that may be
/// omitted, of one after the other in the order in which they are written, and of nothing
/// else.
pub proof fn lemma_symbols_tell_of_elements(file: &DtsFile, r: Vec<DocumentSymbol>)
    requires
        call_ensures(document_symbols, (file,), r),
    ensures
        ({
            let told = file.elements@.filter(|primary: Primary| is_told_of(primary));
            &&& r@.len() == told.len()
            &&& forall|i: int|
                0 <= i < told.len() ==> tells_of_primary(#[trigger] r@[i], told[i])
        }),
{
    let told = file.elements@.filter(|primary: Primary| is_told_of(primary));
    lemma_file_symbols(r@, file.elements@);
    assert forall|i: int| 0 <= i < told.len() implies tells_of_primary(
        #[trigger] r@[i],
        told[i],
    ) by {
        assert(is_primary_symbol(r@[i], told[i]));
        if let Some(items) = items_of(told[i]) {
            lemma_one_for_each((r@[i].children->0)@, items);
        }
    }
}

/// Below the symbol of a node, whether it is given by a name or by a reference, there is one
/// symbol for each item of the node, and so on at every depth: whatever item places lead to
/// in the node, the same places lead to the symbol that tells of it, and where there is no
/// item there is no symbol.
pub proof fn lemma_symbols_tell_of_items(
    file: &DtsFile,
    r: Vec<DocumentSymbol>,
    i: int,
    places: Seq<int>,
)
    requires
        call_ensures(document_symbols, (file,), r),
        0 <= i < r@.len(),
        items_of(file.elements@.filter(|primary: Primary| is_told_of(primary))[i]) is Some,
    ensures
        ({
            let told = file.elements@.filter(|primary: Primary| is_told_of(primary));
            &&& r@[i].children matches Some(children)
            &&& match item_along(items_of(told[i])->0, places) {
                Some(item) => symbol_along(children@, places) matches Some(symbol)
                    && tells_of_item(symbol, item),
                None => symbol_along(children@, places) is None,
            }
        }),
{
    let told = file.elements@.filter(|primary: Primary| is_told_of(primary));
    lemma_file_symbols(r@, file.elements@);
    assert(is_primary_symbol(r@[i], told[i]));
    lemma_told_below((r@[i].children->0)@, items_of(told[i])->0, places);
}

/// The file that a path leads to has symbols exactly if it is in the project and was
/// parsed: those of the parsed file.
pub proof fn lemma_symbols_of_parsed_file(
    project: &Project,
    canonical: Option<FileId>,
    r: Option<Vec<DocumentSymbol>>,
)
    requires
        call_ensures(document_symbol, (project, canonical), r),
    ensures
        r is Some <==> (canonical matches Some(path) && project@.files.contains_key(path)
            && project@.files[path].file is Some),
        r matches Some(symbols) ==> {
            let elements = (project@.files[canonical->0].file->0).elements@;
            let told = elements.filter(|primary: Primary| is_told_of(primary));
            &&& symbols@.len() == told.len()
            &&& forall|i: int|
                0 <= i < told.len() ==> tells_of_primary(#[trigger] symbols@[i], told[i])
            &&& forall|i: int, places: Seq<int>|
                0 <= i < told.len() && items_of(told[i]) is Some ==> ((
                #[trigger] symbol_along((symbols@[i].children->0)@, places)) is Some
                    <==> item_along(items_of(told[i])->0, places) is Some)
        },
{
    if let Some(symbols) = r {
        let elements = (project@.files[canonical->0].file->0).elements@;
        let told = elements.filter(|primary: Primary| is_told_of(primary));
        lemma_file_symbols(symbols@, elements);
        assert forall|i: int| 0 <= i < told.len() implies tells_of_primary(
            #[trigger] symbols@[i],
            told[i],
        ) by {
            assert(is_primary_symbol(symbols@[i], told[i]));
            if let Some(items) = items_of(told[i]) {
                lemma_one_for_each((symbols@[i].children->0)@, items);
            }
        }
        assert forall|i: int, places: Seq<int>|
            0 <= i < told.len() && items_of(told[i]) is Some implies ((#[trigger] symbol_along(
            (symbols@[i].children->0)@,
            places,
        )) is Some <==> item_along(items_of(told[i])->0, places) is Some) by {
            assert(is_primary_symbol(symbols@[i], told[i]));
            lemma_told_below((symbols@[i].children->0)@, items_of(told[i])->0, places);
        }
    }
}

} // verus!
