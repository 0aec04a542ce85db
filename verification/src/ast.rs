//! The parts of a device-tree source file.
use crate::data::{FileId, HasSource, HasSpan, Position, Span, Token};
use std::sync::Arc;
use vstd::prelude::*;

verus! {

/// An item together with the token that it was read from.
#[derive(Clone, Eq, PartialEq, Debug)]
pub struct WithToken<T> {
    pub item: T,
    pub token: Token,
}

impl<T> WithToken<T> {
    pub fn new(item: T, token: Token) -> (r: WithToken<T>)
        ensures
            r == (WithToken { item, token }),
    {
        WithToken { item, token }
    }

    pub fn item(&self) -> (r: &T)
        ensures
            *r == self.item,
    {
        &self.item
    }
}

impl<T> std::ops::Deref for WithToken<T> {
    type Target = T;

    fn deref(&self) -> (r: &T)
        ensures
            *r == self.item,
    {
        &self.item
    }
}

impl<T> HasSpan for WithToken<T> {
    open spec fn spec_span(&self) -> Span {
        self.token.span
    }

    fn span(&self) -> (r: Span) {
        self.token.span
    }
}

impl<T> HasSource for WithToken<T> {
    open spec fn spec_source(&self) -> FileId {
        self.token.source
    }

    fn source(&self) -> (r: FileId) {
        self.token.source
    }
}

/// The name of a node: what stands before and what stands behind the first `@`.
#[derive(Eq, PartialEq, Debug, Hash)]
pub struct NodeName {
    pub name: String,
    pub unit_address: Option<String>,
}

/// A node name as mathematical text.
pub struct NodeNameView {
    pub name: Seq<char>,
    pub unit_address: Option<Seq<char>>,
}

/// The text in an optional string.
pub open spec fn optional_text(text: Option<String>) -> Option<Seq<char>> {
    match text {
        Some(text) => Some(text@),
        None => None,
    }
}

impl View for NodeName {
    type V = NodeNameView;

    open spec fn view(&self) -> NodeNameView {
        NodeNameView { name: self.name@, unit_address: optional_text(self.unit_address) }
    }
}

impl Clone for NodeName {
    fn clone(&self) -> (r: NodeName)
        ensures
            r@ == self@,
    {
        NodeName {
            name: self.name.clone(),
            unit_address: match &self.unit_address {
                Some(address) => Some(address.clone()),
                None => None,
            },
        }
    }
}

impl NodeName {
    /// A name without a unit address.
    pub fn simple(name: &str) -> (r: NodeName)
        ensures
            r@ == (NodeNameView { name: name@, unit_address: None }),
    {
        NodeName { name: name.to_owned(), unit_address: None }
    }

    /// A name with a unit address.
    pub fn with_address(name: &str, address: &str) -> (r: NodeName)
        ensures
            r@ == (NodeNameView { name: name@, unit_address: Some(address@) }),
    {
        NodeName { name: name.to_owned(), unit_address: Some(address.to_owned()) }
    }

    /// Whether two names are the same.
    pub fn same(&self, other: &NodeName) -> (r: bool)
        ensures
            r == (self@ == other@),
    {
        if self.name != other.name {
            return false;
        }
        match (&self.unit_address, &other.unit_address) {
            (Some(a), Some(b)) => *a == *b,
            (None, None) => true,
            _ => false,
        }
    }
}

/// Node names as mathematical text.
pub open spec fn names_view(names: Seq<NodeName>) -> Seq<NodeNameView> {
    names.map_values(|name: NodeName| name@)
}

/// A copy of a list of node names.
pub fn clone_names(names: &[NodeName]) -> (r: Vec<NodeName>)
    ensures
        names_view(r@) == names_view(names@),
{
    let mut r: Vec<NodeName> = Vec::new();
    let mut i: usize = 0;
    while i < names.len()
        invariant
            i <= names@.len(),
            r@.len() == i,
            forall|j: int| 0 <= j < i ==> #[trigger] r@[j]@ == names@[j]@,
        decreases names@.len() - i,
    {
        r.push(names[i].clone());
        i += 1;
    }
    assert(names_view(r@) =~= names_view(names@));
    r
}

/// Whether two lists of node names are the same.
pub fn same_names(a: &[NodeName], b: &[NodeName]) -> (r: bool)
    ensures
        r == (names_view(a@) == names_view(b@)),
{
    if a.len() != b.len() {
        assert(names_view(a@).len() != names_view(b@).len());
        return false;
    }
    let mut i: usize = 0;
    while i < a.len()
        invariant
            i <= a@.len(),
            a@.len() == b@.len(),
            forall|j: int| 0 <= j < i ==> #[trigger] a@[j]@ == b@[j]@,
        decreases a@.len() - i,
    {
        if !a[i].same(&b[i]) {
            assert(names_view(a@)[i as int] != names_view(b@)[i as int]);
            return false;
        }
        i += 1;
    }
    assert(names_view(a@) =~= names_view(b@));
    true
}

/// A path that starts at the root of the device tree.
#[derive(Eq, PartialEq, Debug, Hash)]
pub struct AbsolutePath {
    pub elements: Vec<NodeName>,
}

impl View for AbsolutePath {
    type V = Seq<NodeNameView>;

    open spec fn view(&self) -> Seq<NodeNameView> {
        names_view(self.elements@)
    }
}

impl Clone for AbsolutePath {
    fn clone(&self) -> (r: AbsolutePath)
        ensures
            r@ == self@,
    {
        AbsolutePath { elements: clone_names(self.elements.as_slice()) }
    }
}

impl AbsolutePath {
    /// The path of the root node.
    pub fn root() -> (r: AbsolutePath)
        ensures
            r@ == Seq::<NodeNameView>::empty(),
    {
        let r = AbsolutePath { elements: Vec::new() };
        assert(r@ =~= Seq::<NodeNameView>::empty());
        r
    }

    pub fn with_child(&self, child: NodeName) -> (r: AbsolutePath)
        ensures
            r@ == self@.push(child@),
    {
        let mut elements = clone_names(self.elements.as_slice());
        elements.push(child);
        let r = AbsolutePath { elements };
        assert(r@ =~= self@.push(child@));
        r
    }

    pub fn with_children(&self, children: &[NodeName]) -> (r: AbsolutePath)
        ensures
            r@ == self@ + names_view(children@),
    {
        let mut elements = clone_names(self.elements.as_slice());
        let mut tail = clone_names(children);
        elements.append(&mut tail);
        let r = AbsolutePath { elements };
        assert(r@ =~= self@ + names_view(children@));
        r
    }

    /// Whether two paths are the same.
    pub fn same(&self, other: &AbsolutePath) -> (r: bool)
        ensures
            r == (self@ == other@),
    {
        same_names(self.elements.as_slice(), other.elements.as_slice())
    }

    /// Whether this is the path of the root node.
    pub fn is_root(&self) -> (r: bool)
        ensures
            r == (self@ == Seq::<NodeNameView>::empty()),
    {
        let r = self.elements.len() == 0;
        if r {
            assert(self@ =~= Seq::<NodeNameView>::empty());
        } else {
            assert(self@.len() != Seq::<NodeNameView>::empty().len());
        }
        r
    }
}

/// A path that starts at the node in which it is written.
#[derive(Eq, PartialEq, Debug, Hash)]
pub struct DotRelativePath {
    pub elements: Vec<NodeName>,
}

impl View for DotRelativePath {
    type V = Seq<NodeNameView>;

    open spec fn view(&self) -> Seq<NodeNameView> {
        names_view(self.elements@)
    }
}

impl Clone for DotRelativePath {
    fn clone(&self) -> (r: DotRelativePath)
        ensures
            r@ == self@,
    {
        DotRelativePath { elements: clone_names(self.elements.as_slice()) }
    }
}

impl DotRelativePath {
    pub fn elements(&self) -> (r: &[NodeName])
        ensures
            r@ == self.elements@,
    {
        self.elements.as_slice()
    }
}

/// A path that starts at a labeled node.
#[derive(Eq, PartialEq, Debug, Hash)]
pub struct LabelRelativePath {
    pub label: String,
    pub elements: Vec<NodeName>,
}

/// A path that starts at a labeled node as mathematical text.
pub struct LabelRelativePathView {
    pub label: Seq<char>,
    pub elements: Seq<NodeNameView>,
}

impl View for LabelRelativePath {
    type V = LabelRelativePathView;

    open spec fn view(&self) -> LabelRelativePathView {
        LabelRelativePathView { label: self.label@, elements: names_view(self.elements@) }
    }
}

impl Clone for LabelRelativePath {
    fn clone(&self) -> (r: LabelRelativePath)
        ensures
            r@ == self@,
    {
        LabelRelativePath {
            label: self.label.clone(),
            elements: clone_names(self.elements.as_slice()),
        }
    }
}

impl LabelRelativePath {
    pub fn elements(&self) -> (r: &[NodeName])
        ensures
            r@ == self.elements@,
    {
        self.elements.as_slice()
    }
}

/// A path to a node.
#[derive(Eq, PartialEq, Debug, Hash)]
pub enum Path {
    Absolute(AbsolutePath),
    DotRelative(DotRelativePath),
    LabelRelative(LabelRelativePath),
}

/// A path to a node as mathematical text.
pub enum PathView {
    Absolute(Seq<NodeNameView>),
    DotRelative(Seq<NodeNameView>),
    LabelRelative(Seq<char>, Seq<NodeNameView>),
}

impl PathView {
    /// The names along the path.
    pub open spec fn elements(self) -> Seq<NodeNameView> {
        match self {
            PathView::Absolute(elements) => elements,
            PathView::DotRelative(elements) => elements,
            PathView::LabelRelative(_, elements) => elements,
        }
    }
}

impl View for Path {
    type V = PathView;

    open spec fn view(&self) -> PathView {
        match self {
            Path::Absolute(path) => PathView::Absolute(path@),
            Path::DotRelative(path) => PathView::DotRelative(path@),
            Path::LabelRelative(path) => PathView::LabelRelative(path@.label, path@.elements),
        }
    }
}

impl Clone for Path {
    fn clone(&self) -> (r: Path)
        ensures
            r@ == self@,
    {
        match self {
            Path::Absolute(path) => Path::Absolute(path.clone()),
            Path::DotRelative(path) => Path::DotRelative(path.clone()),
            Path::LabelRelative(path) => Path::LabelRelative(path.clone()),
        }
    }
}

impl Path {
    pub fn new_absolute(elements: Vec<NodeName>) -> (r: Path)
        ensures
            r@ == PathView::Absolute(names_view(elements@)),
    {
        Path::Absolute(AbsolutePath { elements })
    }

    pub fn new_dot_relative(elements: Vec<NodeName>) -> (r: Path)
        ensures
            r@ == PathView::DotRelative(names_view(elements@)),
    {
        Path::DotRelative(DotRelativePath { elements })
    }

    pub fn new_label_relative(label: String, elements: Vec<NodeName>) -> (r: Path)
        ensures
            r@ == PathView::LabelRelative(label@, names_view(elements@)),
    {
        Path::LabelRelative(LabelRelativePath { label, elements })
    }

    /// The absolute path of the root node.
    pub fn empty() -> (r: Path)
        ensures
            r@ == PathView::Absolute(Seq::empty()),
    {
        let elements: Vec<NodeName> = Vec::new();
        assert(names_view(elements@) =~= Seq::<NodeNameView>::empty());
        Path::new_absolute(elements)
    }

    /// The names along the path.
    pub fn elements(&self) -> (r: &Vec<NodeName>)
        ensures
            names_view(r@) == self@.elements(),
    {
        match self {
            Path::Absolute(path) => &path.elements,
            Path::DotRelative(path) => &path.elements,
            Path::LabelRelative(path) => &path.elements,
        }
    }

    /// The names along the path, one after the other.
    pub fn iter(&self) -> (r: std::slice::Iter<'_, NodeName>)
        ensures
            names_view(vstd::std_specs::iter::IteratorSpec::remaining(&r).unref())
                == self@.elements(),
    {
        self.elements().iter()
    }
}

/// A path to a property of a node.
#[derive(Eq, PartialEq, Debug, Hash)]
pub struct PropertyPath {
    pub node_path: Path,
    pub property_name: String,
}

/// A path to a property as mathematical text.
pub struct PropertyPathView {
    pub node_path: PathView,
    pub property_name: Seq<char>,
}

impl View for PropertyPath {
    type V = PropertyPathView;

    open spec fn view(&self) -> PropertyPathView {
        PropertyPathView { node_path: self.node_path@, property_name: self.property_name@ }
    }
}

impl Clone for PropertyPath {
    fn clone(&self) -> (r: PropertyPath)
        ensures
            r@ == self@,
    {
        PropertyPath {
            node_path: self.node_path.clone(),
            property_name: self.property_name.clone(),
        }
    }
}

impl PropertyPath {
    pub fn new(node_path: Path, property_name: String) -> (r: PropertyPath)
        ensures
            r == (PropertyPath { node_path, property_name }),
    {
        PropertyPath { node_path, property_name }
    }

    pub fn node_path(&self) -> (r: &Path)
        ensures
            *r == self.node_path,
    {
        &self.node_path
    }

    pub fn property_name(&self) -> (r: &str)
        ensures
            r@ == self.property_name@,
    {
        self.property_name.as_str()
    }
}

/// Something that a property value or a node refers to.
#[derive(Eq, PartialEq, Debug)]
pub enum Reference {
    Label(String),
    Path(Path),
    PropertyPath(PropertyPath),
}

/// A reference as mathematical text.
pub enum ReferenceView {
    Label(Seq<char>),
    Path(PathView),
    PropertyPath(PropertyPathView),
}

impl View for Reference {
    type V = ReferenceView;

    open spec fn view(&self) -> ReferenceView {
        match self {
            Reference::Label(label) => ReferenceView::Label(label@),
            Reference::Path(path) => ReferenceView::Path(path@),
            Reference::PropertyPath(path) => ReferenceView::PropertyPath(path@),
        }
    }
}

impl Clone for Reference {
    fn clone(&self) -> (r: Reference)
        ensures
            r@ == self@,
    {
        match self {
            Reference::Label(label) => Reference::Label(label.clone()),
            Reference::Path(path) => Reference::Path(path.clone()),
            Reference::PropertyPath(path) => Reference::PropertyPath(path.clone()),
        }
    }
}

/// The base in which a number is written.
#[derive(Clone, Copy, Eq, PartialEq, Debug, Structural)]
pub enum NumberRepr {
    Hexadecimal,
    Octal,
    Decimal,
}

/// One cell of a cell list.
#[derive(Eq, PartialEq, Debug)]
pub enum Cell {
    Number(WithToken<u32>, NumberRepr),
    Reference(WithToken<Reference>),
    Expression(WithToken<String>),
}

/// One cell of a cell list, with its text as mathematical text.
pub enum CellView {
    Number(WithToken<u32>, NumberRepr),
    Reference(ReferenceView, Token),
    Expression(Seq<char>, Token),
}

impl View for Cell {
    type V = CellView;

    open spec fn view(&self) -> CellView {
        match self {
            Cell::Number(number, repr) => CellView::Number(*number, *repr),
            Cell::Reference(reference) => CellView::Reference(reference.item@, reference.token),
            Cell::Expression(text) => CellView::Expression(text.item@, text.token),
        }
    }
}

impl Clone for Cell {
    fn clone(&self) -> (r: Cell)
        ensures
            r@ == self@,
    {
        match self {
            Cell::Number(number, repr) => Cell::Number(
                WithToken::new(number.item, number.token),
                *repr,
            ),
            Cell::Reference(reference) => Cell::Reference(
                WithToken::new(reference.item.clone(), reference.token),
            ),
            Cell::Expression(text) => Cell::Expression(
                WithToken::new(text.item.clone(), text.token),
            ),
        }
    }
}

impl Cell {
    pub fn decimal(token: WithToken<u32>) -> (r: Cell)
        ensures
            r == Cell::Number(token, NumberRepr::Decimal),
    {
        Cell::Number(token, NumberRepr::Decimal)
    }

    pub fn hexadecimal(token: WithToken<u32>) -> (r: Cell)
        ensures
            r == Cell::Number(token, NumberRepr::Hexadecimal),
    {
        Cell::Number(token, NumberRepr::Hexadecimal)
    }
}

/// One value of a property.
#[derive(Eq, PartialEq, Debug)]
pub enum PropertyValue {
    String(WithToken<String>),
    Cells(Token, Vec<Cell>, Token),
    Reference(WithToken<Reference>),
    ByteStrings(Token, Vec<WithToken<Vec<u8>>>, Token),
    Incbin(Token, Include, Token),
}

impl HasSpan for PropertyValue {
    open spec fn spec_span(&self) -> Span {
        match self {
            PropertyValue::String(text) => text.token.span,
            PropertyValue::Cells(start, _, end) => Span {
                start: start.span.start,
                end: end.span.end,
            },
            PropertyValue::Reference(reference) => reference.token.span,
            PropertyValue::ByteStrings(start, _, end) => Span {
                start: start.span.start,
                end: end.span.end,
            },
            PropertyValue::Incbin(_, inclusion, end) => Span {
                start: inclusion.include_token.span.start,
                end: end.span.end,
            },
        }
    }

    fn span(&self) -> (r: Span) {
        match self {
            PropertyValue::String(text) => text.span(),
            PropertyValue::Cells(start, _, end) => start.start().to(end.end()),
            PropertyValue::Reference(reference) => reference.span(),
            PropertyValue::ByteStrings(start, _, end) => start.start().to(end.end()),
            PropertyValue::Incbin(_, inclusion, end) => {
                inclusion.include_token.start().to(end.end())
            },
        }
    }
}

impl HasSource for PropertyValue {
    open spec fn spec_source(&self) -> FileId {
        match self {
            PropertyValue::String(text) => text.token.source,
            PropertyValue::Cells(start, _, _) => start.source,
            PropertyValue::Reference(reference) => reference.token.source,
            PropertyValue::ByteStrings(start, _, _) => start.source,
            PropertyValue::Incbin(start, _, _) => start.source,
        }
    }

    fn source(&self) -> (r: FileId) {
        match self {
            PropertyValue::String(text) => text.source(),
            PropertyValue::Cells(start, _, _) => start.source(),
            PropertyValue::Reference(reference) => reference.source(),
            PropertyValue::ByteStrings(start, _, _) => start.source(),
            PropertyValue::Incbin(start, _, _) => start.source(),
        }
    }
}

/// A property of a node.
#[derive(Eq, PartialEq, Debug)]
pub struct Property {
    pub label: Option<WithToken<String>>,
    pub name: WithToken<String>,
    pub values: Vec<PropertyValue>,
    pub end: Token,
}

impl Property {
    /// A property without values.
    pub fn empty(
        name: WithToken<String>,
        label: Option<WithToken<String>>,
        end: Token,
    ) -> (r: Property)
        ensures
            r.label == label,
            r.name == name,
            r.values@ == Seq::<PropertyValue>::empty(),
            r.end == end,
    {
        Property { label, name, values: Vec::new(), end }
    }
}

/// Where something starts that may have a label in front of its name.
pub open spec fn labeled_start<T>(
    label: Option<WithToken<String>>,
    name: WithToken<T>,
) -> Position {
    match label {
        Some(label) => label.token.span.start,
        None => name.token.span.start,
    }
}

impl HasSpan for Property {
    open spec fn spec_span(&self) -> Span {
        Span { start: labeled_start(self.label, self.name), end: self.end.span.end }
    }

    fn span(&self) -> (r: Span) {
        let start = match &self.label {
            Some(label) => label.start(),
            None => self.name.start(),
        };
        start.to(self.end.end())
    }
}

impl HasSource for Property {
    open spec fn spec_source(&self) -> FileId {
        self.end.source
    }

    fn source(&self) -> (r: FileId) {
        self.end.source()
    }
}

/// A node of the device tree.
#[derive(Eq, PartialEq, Debug)]
pub struct Node {
    pub label: Option<WithToken<String>>,
    pub name: WithToken<NodeName>,
    pub payload: NodePayload,
    pub omit_if_no_ref: Option<Token>,
    pub span: Span,
}

/// One item between the braces of a node.
#[derive(Eq, PartialEq, Debug)]
pub enum NodeItem {
    Property(Arc<Property>),
    Node(Arc<Node>),
    DeletedNode(Token, WithToken<NodeName>),
    DeletedProperty(Token, WithToken<String>),
}

/// What stands between the braces of a node.
#[derive(Eq, PartialEq, Debug)]
pub struct NodePayload {
    pub items: Vec<NodeItem>,
    pub end: Token,
}

impl HasSpan for Node {
    open spec fn spec_span(&self) -> Span {
        Span { start: labeled_start(self.label, self.name), end: self.payload.end.span.end }
    }

    fn span(&self) -> (r: Span) {
        let start = match &self.label {
            Some(label) => label.start(),
            None => self.name.start(),
        };
        start.to(self.payload.end.end())
    }
}

/// A reservation of memory.
#[derive(Eq, PartialEq, Debug)]
pub struct Memreserve {
    pub address: WithToken<u64>,
    pub length: WithToken<u64>,
}

impl Memreserve {
    pub fn new(address: WithToken<u64>, length: WithToken<u64>) -> (r: Memreserve)
        ensures
            r == (Memreserve { address, length }),
    {
        Memreserve { address, length }
    }
}

/// A source file.
#[derive(Eq, PartialEq, Debug)]
pub struct DtsFile {
    pub elements: Vec<Primary>,
    pub source: FileId,
}

impl HasSource for DtsFile {
    open spec fn spec_source(&self) -> FileId {
        self.source
    }

    fn source(&self) -> (r: FileId) {
        self.source
    }
}

/// A directive that names another file.
#[derive(Eq, PartialEq, Debug)]
pub struct Include {
    pub include_token: Token,
    pub file_name: WithToken<String>,
}

/// A directive that names another file, with the name as mathematical text.
pub struct IncludeView {
    pub include_token: Token,
    pub file_name: Seq<char>,
    pub file_token: Token,
}

impl View for Include {
    type V = IncludeView;

    open spec fn view(&self) -> IncludeView {
        IncludeView {
            include_token: self.include_token,
            file_name: self.file_name.item@,
            file_token: self.file_name.token,
        }
    }
}

impl Clone for Include {
    fn clone(&self) -> (r: Include)
        ensures
            r@ == self@,
    {
        Include {
            include_token: self.include_token,
            file_name: WithToken::new(self.file_name.item.clone(), self.file_name.token),
        }
    }
}

impl Include {
    pub fn file_name(&self) -> (r: String)
        ensures
            r@ == self.file_name.item@,
    {
        self.file_name.item.clone()
    }
}

impl HasSpan for Include {
    open spec fn spec_span(&self) -> Span {
        Span { start: self.include_token.span.start, end: self.file_name.token.span.end }
    }

    fn span(&self) -> (r: Span) {
        self.include_token.start().to(self.file_name.end())
    }
}

impl HasSource for Include {
    open spec fn spec_source(&self) -> FileId {
        self.include_token.source
    }

    fn source(&self) -> (r: FileId) {
        self.include_token.source()
    }
}

/// A directive at the top of a file.
#[derive(Eq, PartialEq, Debug)]
pub enum AnyDirective {
    DtsHeader(Token),
    Plugin(Token),
    Memreserve(Memreserve),
    Include(Include),
    DeletedNode(Token, WithToken<Reference>),
    OmitIfNoRef(Token, WithToken<Reference>),
}

/// A node that is given by a reference to it.
#[derive(Eq, PartialEq, Debug)]
pub struct ReferencedNode {
    pub label: Option<WithToken<String>>,
    pub reference: WithToken<Reference>,
    pub payload: NodePayload,
    pub span: Span,
}

impl HasSpan for ReferencedNode {
    open spec fn spec_span(&self) -> Span {
        Span { start: self.reference.token.span.start, end: self.payload.end.span.end }
    }

    fn span(&self) -> (r: Span) {
        self.reference.start().to(self.payload.end.end())
    }
}

/// One element of a source file.
#[derive(Eq, PartialEq, Debug)]
pub enum Primary {
    Directive(AnyDirective),
    Root(Arc<Node>),
    ReferencedNode(Arc<ReferencedNode>),
    CStyleInclude(String),
}

impl Primary {
    pub fn as_include(&self) -> (r: Option<&Include>)
        ensures
            match self {
                Primary::Directive(AnyDirective::Include(inclusion)) => r == Some(inclusion),
                _ => r is None,
            },
    {
        match self {
            Primary::Directive(AnyDirective::Include(inclusion)) => Some(inclusion),
            _ => None,
        }
    }
}

} // verus!
