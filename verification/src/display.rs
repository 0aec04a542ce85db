//! Source files and their parts in writing.
use crate::ast::{
    AnyDirective, Cell, DtsFile, Include, Memreserve, Node, NodeItem, NodePayload, NumberRepr,
    Primary, Property, PropertyValue, ReferencedNode, WithToken,
};
use crate::path::{name_text, reference_text};
use crate::text::{joined, number_text, texts, write_number};
use vstd::prelude::*;

verus! {

/// A cell in writing.
pub open spec fn cell_text(cell: Cell) -> Seq<char> {
    match cell {
        Cell::Number(number, NumberRepr::Hexadecimal) => "0x"@ + number_text(
            number.item as nat,
            16,
        ),
        Cell::Number(number, NumberRepr::Octal) => "0"@ + number_text(number.item as nat, 8),
        Cell::Number(number, NumberRepr::Decimal) => number_text(number.item as nat, 10),
        Cell::Reference(reference) => reference_text(reference.item@),
        Cell::Expression(expression) => expression.item@,
    }
}

/// A byte in writing: two columns wide, with a blank in front of a single digit.
pub open spec fn byte_text(byte: u8) -> Seq<char> {
    if byte < 16 {
        " "@ + number_text(byte as nat, 16)
    } else {
        number_text(byte as nat, 16)
    }
}

/// Bytes in writing, one after the other.
pub open spec fn bytes_text(bytes: Seq<u8>) -> Seq<char>
    decreases bytes.len(),
{
    if bytes.len() == 0 {
        Seq::empty()
    } else {
        bytes_text(bytes.drop_last()) + byte_text(bytes.last())
    }
}

/// A directive that names another file, in writing.
pub open spec fn inclusion_text(inclusion: Include) -> Seq<char> {
    "/include/ \""@ + inclusion.file_name.item@ + "\""@
}

/// The value of a property in writing.
pub open spec fn value_text(value: PropertyValue) -> Seq<char> {
    match value {
        PropertyValue::String(text) => "\""@ + text.item@ + "\""@,
        PropertyValue::Cells(_, cells, _) => "<"@ + joined(
            cells@.map_values(|cell: Cell| cell_text(cell)),
            " "@,
        ) + ">"@,
        PropertyValue::Reference(reference) => reference_text(reference.item@),
        PropertyValue::ByteStrings(_, strings, _) => "["@ + joined(
            strings@.map_values(|bytes: WithToken<Vec<u8>>| bytes_text(bytes.item@)),
            " "@,
        ) + "]"@,
        PropertyValue::Incbin(_, inclusion, _) => "/incbin/(\""@ + inclusion_text(inclusion)
            + "\")"@,
    }
}

/// The values of a property in writing, each by itself.
pub open spec fn value_texts(values: Seq<PropertyValue>) -> Seq<Seq<char>> {
    values.map_values(|value: PropertyValue| value_text(value))
}

/// A property in writing.
pub open spec fn property_text(property: Property) -> Seq<char> {
    if property.values@.len() == 0 {
        property.name.item@ + ";\n"@
    } else {
        property.name.item@ + " = "@ + joined(value_texts(property.values@), ", "@) + ";\n"@
    }
}

/// Writes texts behind another, with a separator between each two.
fn append_joined(text: &mut String, parts: &Vec<String>, separator: &str)
    ensures
        final(text)@ == old(text)@ + joined(texts(parts@), separator@),
{
    let ghost all = texts(parts@);
    let mut i: usize = 0;
    assert(text@ =~= old(text)@ + joined(all.take(0), separator@));
    while i < parts.len()
        invariant
            i <= parts@.len(),
            all == texts(parts@),
            text@ == old(text)@ + joined(all.take(i as int), separator@),
        decreases parts@.len() - i,
    {
        assert(all.take(i + 1).drop_last() =~= all.take(i as int));
        if i > 0 {
            text.append(separator);
        }
        text.append(parts[i].as_str());
        assert(text@ =~= old(text)@ + joined(all.take(i + 1), separator@));
        i += 1;
    }
    assert(all.take(i as int) =~= all);
}

impl Cell {
    /// This cell in writing.
    pub fn to_string(&self) -> (r: String)
        ensures
            r@ == cell_text(*self),
    {
        match self {
            Cell::Number(number, NumberRepr::Hexadecimal) => {
                let mut r = "0x".to_owned();
                r.append(write_number(number.item as u64, 16).as_str());
                r
            },
            Cell::Number(number, NumberRepr::Octal) => {
                let mut r = "0".to_owned();
                r.append(write_number(number.item as u64, 8).as_str());
                r
            },
            Cell::Number(number, NumberRepr::Decimal) => write_number(number.item as u64, 10),
            Cell::Reference(reference) => reference.item.to_string(),
            Cell::Expression(expression) => expression.item.clone(),
        }
    }
}

/// Writes bytes one after the other.
fn write_bytes(bytes: &Vec<u8>) -> (r: String)
    ensures
        r@ == bytes_text(bytes@),
{
    proof {
        reveal_strlit("");
    }
    let mut r = "".to_owned();
    let mut i: usize = 0;
    assert(r@ =~= bytes_text(bytes@.take(0)));
    while i < bytes.len()
        invariant
            i <= bytes@.len(),
            r@ == bytes_text(bytes@.take(i as int)),
        decreases bytes@.len() - i,
    {
        assert(bytes@.take(i + 1).drop_last() =~= bytes@.take(i as int));
        let ghost before = r@;
        if bytes[i] < 16 {
            r.append(" ");
        }
        r.append(write_number(bytes[i] as u64, 16).as_str());
        assert(r@ =~= before + byte_text(bytes@[i as int]));
        i += 1;
    }
    assert(bytes@.take(i as int) =~= bytes@);
    r
}

impl Include {
    /// This directive in writing.
    pub fn to_string(&self) -> (r: String)
        ensures
            r@ == inclusion_text(*self),
    {
        let mut r = "/include/ \"".to_owned();
        r.append(self.file_name.item.as_str());
        r.append("\"");
        r
    }
}

impl PropertyValue {
    /// This value in writing.
    pub fn to_string(&self) -> (r: String)
        ensures
            r@ == value_text(*self),
    {
        match self {
            PropertyValue::String(text) => {
                let mut r = "\"".to_owned();
                r.append(text.item.as_str());
                r.append("\"");
                r
            },
            PropertyValue::Cells(_, cells, _) => {
                let mut parts: Vec<String> = Vec::new();
                let mut i: usize = 0;
                while i < cells.len()
                    invariant
                        i <= cells@.len(),
                        parts@.len() == i,
                        forall|j: int| 0 <= j < i ==> #[trigger] parts@[j]@ == cell_text(cells@[j]),
                    decreases cells@.len() - i,
                {
                    parts.push(cells[i].to_string());
                    i += 1;
                }
                assert(texts(parts@) =~= cells@.map_values(|cell: Cell| cell_text(cell)));
                let mut r = "<".to_owned();
                append_joined(&mut r, &parts, " ");
                r.append(">");
                r
            },
            PropertyValue::Reference(reference) => reference.item.to_string(),
            PropertyValue::ByteStrings(_, strings, _) => {
                let mut parts: Vec<String> = Vec::new();
                let mut i: usize = 0;
                while i < strings.len()
                    invariant
                        i <= strings@.len(),
                        parts@.len() == i,
                        forall|j: int|
                            0 <= j < i ==> #[trigger] parts@[j]@ == bytes_text(strings@[j].item@),
                    decreases strings@.len() - i,
                {
                    parts.push(write_bytes(&strings[i].item));
                    i += 1;
                }
                assert(texts(parts@) =~= strings@.map_values(
                    |bytes: WithToken<Vec<u8>>| bytes_text(bytes.item@),
                ));
                let mut r = "[".to_owned();
                append_joined(&mut r, &parts, " ");
                r.append("]");
                r
            },
            PropertyValue::Incbin(_, inclusion, _) => {
                let mut r = "/incbin/(\"".to_owned();
                r.append(inclusion.to_string().as_str());
                r.append("\")");
                r
            },
        }
    }
}

/// Writes values, each by itself.
pub fn write_values(values: &Vec<PropertyValue>) -> (r: Vec<String>)
    ensures
        texts(r@) == value_texts(values@),
{
    let mut r: Vec<String> = Vec::new();
    let mut i: usize = 0;
    while i < values.len()
        invariant
            i <= values@.len(),
            r@.len() == i,
            forall|j: int| 0 <= j < i ==> #[trigger] r@[j]@ == value_text(values@[j]),
        decreases values@.len() - i,
    {
        r.push(values[i].to_string());
        i += 1;
    }
    assert(texts(r@) =~= value_texts(values@));
    r
}

impl Property {
    /// This property in writing.
    pub fn to_string(&self) -> (r: String)
        ensures
            r@ == property_text(*self),
    {
        let mut r = self.name.item.clone();
        if self.values.len() > 0 {
            r.append(" = ");
            append_joined(&mut r, &write_values(&self.values), ", ");
        }
        r.append(";\n");
        r
    }
}

/// One item between the braces of a node, in writing.
pub open spec fn item_text(item: NodeItem) -> Seq<char>
    decreases item,
{
    match item {
        NodeItem::Property(property) => property_text(*property),
        NodeItem::Node(node) => node_text(*node),
        NodeItem::DeletedNode(_, name) => "/delete-node/ "@ + name_text(name.item@),
        NodeItem::DeletedProperty(_, name) => "/delete-property/ "@ + name.item@,
    }
}

/// Items in writing, each indented on lines of its own.
pub open spec fn items_text(items: Seq<NodeItem>) -> Seq<char>
    decreases items,
{
    if items.len() == 0 {
        Seq::empty()
    } else {
        items_text(items.drop_last()) + "    "@ + item_text(items.last()) + "\n"@
    }
}

/// What stands between the braces of a node, in writing, with the braces.
pub open spec fn payload_text(payload: NodePayload) -> Seq<char>
    decreases payload,
{
    "{\n"@ + items_text(payload.items@) + "};"@
}

/// What is written before the name of something: its label, if it has one.
pub open spec fn label_text(label: Option<WithToken<String>>) -> Seq<char> {
    match label {
        Some(label) => label.item@ + ": "@,
        None => Seq::empty(),
    }
}

/// A node in writing.
pub open spec fn node_text(node: Node) -> Seq<char>
    decreases node,
{
    label_text(node.label) + name_text(node.name.item@) + " "@ + payload_text(node.payload)
}

impl NodeItem {
    /// This item in writing.
    pub fn to_string(&self) -> (r: String)
        ensures
            r@ == item_text(*self),
        decreases self,
    {
        match self {
            NodeItem::Property(property) => property.to_string(),
            NodeItem::Node(node) => node.to_string(),
            NodeItem::DeletedNode(_, name) => {
                let mut r = "/delete-node/ ".to_owned();
                r.append(name.item.to_string().as_str());
                r
            },
            NodeItem::DeletedProperty(_, name) => {
                let mut r = "/delete-property/ ".to_owned();
                r.append(name.item.as_str());
                r
            },
        }
    }
}

impl NodePayload {
    /// These items in writing, with the braces around them.
    pub fn to_string(&self) -> (r: String)
        ensures
            r@ == payload_text(*self),
        decreases self,
    {
        let mut r = "{\n".to_owned();
        let mut i: usize = 0;
        assert(r@ =~= "{\n"@ + items_text(self.items@.take(0)));
        while i < self.items.len()
            invariant
                i <= self.items@.len(),
                r@ == "{\n"@ + items_text(self.items@.take(i as int)),
            decreases self.items@.len() - i,
        {
            assert(self.items@.take(i + 1).drop_last() =~= self.items@.take(i as int));
            r.append("    ");
            r.append(self.items[i].to_string().as_str());
            r.append("\n");
            assert(r@ =~= "{\n"@ + items_text(self.items@.take(i + 1)));
            i += 1;
        }
        assert(self.items@.take(i as int) =~= self.items@);
        r.append("};");
        r
    }
}

impl Node {
    /// This node in writing.
    pub fn to_string(&self) -> (r: String)
        ensures
            r@ == node_text(*self),
        decreases self,
    {
        proof {
            reveal_strlit("");
        }
        let mut r = match &self.label {
            Some(label) => {
                let mut r = label.item.clone();
                r.append(": ");
                r
            },
            None => "".to_owned(),
        };
        assert(r@ =~= label_text(self.label));
        r.append(self.name.item.to_string().as_str());
        r.append(" ");
        r.append(self.payload.to_string().as_str());
        r
    }
}

/// A reservation of memory in writing.
pub open spec fn memreserve_text(memreserve: Memreserve) -> Seq<char> {
    "/memreserve/ 0x"@ + number_text(memreserve.address.item as nat, 16) + " 0x"@ + number_text(
        memreserve.length.item as nat,
        16,
    ) + ";"@
}

/// A directive in writing.
pub open spec fn directive_text(directive: AnyDirective) -> Seq<char> {
    match directive {
        AnyDirective::DtsHeader(_) => "/dts-v1/;"@,
        AnyDirective::Plugin(_) => "/plugin/;"@,
        AnyDirective::Memreserve(memreserve) => memreserve_text(memreserve) + ";"@,
        AnyDirective::Include(inclusion) => inclusion_text(inclusion),
        AnyDirective::DeletedNode(_, reference) => "/delete-node/ "@ + reference_text(
            reference.item@,
        ) + ";"@,
        AnyDirective::OmitIfNoRef(_, reference) => "/omit-if-no-ref/ "@ + reference_text(
            reference.item@,
        ) + ";"@,
    }
}

/// A node that is given by a reference, in writing.
pub open spec fn referenced_node_text(node: ReferencedNode) -> Seq<char> {
    reference_text(node.reference.item@) + " "@ + payload_text(node.payload)
}

/// One element of a source file in writing.
pub open spec fn primary_text(primary: Primary) -> Seq<char> {
    match primary {
        Primary::Directive(directive) => directive_text(directive),
        Primary::Root(node) => node_text(*node),
        Primary::ReferencedNode(node) => referenced_node_text(*node),
        Primary::CStyleInclude(text) => "#include "@ + text@,
    }
}

/// Elements of a source file in writing, each on lines of its own.
pub open spec fn primaries_text(primaries: Seq<Primary>) -> Seq<char>
    decreases primaries.len(),
{
    if primaries.len() == 0 {
        Seq::empty()
    } else {
        primaries_text(primaries.drop_last()) + primary_text(primaries.last()) + "\n"@
    }
}

impl Memreserve {
    /// This reservation in writing.
    pub fn to_string(&self) -> (r: String)
        ensures
            r@ == memreserve_text(*self),
    {
        let mut r = "/memreserve/ 0x".to_owned();
        r.append(write_number(self.address.item, 16).as_str());
        r.append(" 0x");
        r.append(write_number(self.length.item, 16).as_str());
        r.append(";");
        r
    }
}

impl AnyDirective {
    /// This directive in writing.
    pub fn to_string(&self) -> (r: String)
        ensures
            r@ == directive_text(*self),
    {
        match self {
            AnyDirective::DtsHeader(_) => "/dts-v1/;".to_owned(),
            AnyDirective::Plugin(_) => "/plugin/;".to_owned(),
            AnyDirective::Memreserve(memreserve) => {
                let mut r = memreserve.to_string();
                r.append(";");
                r
            },
            AnyDirective::Include(inclusion) => inclusion.to_string(),
            AnyDirective::DeletedNode(_, reference) => {
                let mut r = "/delete-node/ ".to_owned();
                r.append(reference.item.to_string().as_str());
                r.append(";");
                r
            },
            AnyDirective::OmitIfNoRef(_, reference) => {
                let mut r = "/omit-if-no-ref/ ".to_owned();
                r.append(reference.item.to_string().as_str());
                r.append(";");
                r
            },
        }
    }
}

impl ReferencedNode {
    /// This node in writing.
    pub fn to_string(&self) -> (r: String)
        ensures
            r@ == referenced_node_text(*self),
    {
        let mut r = self.reference.item.to_string();
        r.append(" ");
        r.append(self.payload.to_string().as_str());
        r
    }
}

impl Primary {
    /// This element in writing.
    pub fn to_string(&self) -> (r: String)
        ensures
            r@ == primary_text(*self),
    {
        match self {
            Primary::Directive(directive) => directive.to_string(),
            Primary::Root(node) => node.to_string(),
            Primary::ReferencedNode(node) => node.to_string(),
            Primary::CStyleInclude(text) => {
                let mut r = "#include ".to_owned();
                r.append(text.as_str());
                r
            },
        }
    }
}

impl DtsFile {
    /// This file in writing.
    pub fn to_string(&self) -> (r: String)
        ensures
            r@ == primaries_text(self.elements@),
    {
        proof {
            reveal_strlit("");
        }
        let mut r = "".to_owned();
        let mut i: usize = 0;
        assert(r@ =~= primaries_text(self.elements@.take(0)));
        while i < self.elements.len()
            invariant
                i <= self.elements@.len(),
                r@ == primaries_text(self.elements@.take(i as int)),
            decreases self.elements@.len() - i,
        {
            assert(self.elements@.take(i + 1).drop_last() =~= self.elements@.take(i as int));
            r.append(self.elements[i].to_string().as_str());
            r.append("\n");
            i += 1;
        }
        assert(self.elements@.take(i as int) =~= self.elements@);
        r
    }
}

} // verus!
