//! What is known of a device tree: its labels, its nodes and where they stand.
use crate::ast::{
    names_view, AbsolutePath, Node, NodeItem, NodeName, NodeNameView, NodePayload, Path, PathView,
    Property, PropertyPath, PropertyPathView, Reference, ReferenceView, ReferencedNode,
};
use crate::data::{FileId, HasSource, HasSpan, Span};
use crate::display::{value_texts, write_values};
use crate::keyed::KeyedMap;
use crate::path::name_text;
use crate::text::{join, joined};
use std::sync::Arc;
use vstd::prelude::*;

verus! {

/// The first node of a name among items.
pub open spec fn first_named(items: Seq<NodeItem>, name: NodeNameView) -> Option<Arc<Node>>
    decreases items.len(),
{
    if items.len() == 0 {
        None
    } else {
        match first_named(items.drop_last(), name) {
            Some(node) => Some(node),
            None => match items.last() {
                NodeItem::Node(node) if node.name.item@ == name => Some(node),
                _ => None,
            },
        }
    }
}

/// The last node of a name among items.
pub open spec fn last_named(items: Seq<NodeItem>, name: NodeNameView) -> Option<Arc<Node>>
    decreases items.len(),
{
    if items.len() == 0 {
        None
    } else {
        match items.last() {
            NodeItem::Node(node) if node.name.item@ == name => Some(node),
            _ => last_named(items.drop_last(), name),
        }
    }
}

/// The node that names lead to from a payload. Each name but the last leads on
/// to the last child of that name, and is passed over where there is none; the
/// last name leads to the first child of that name.
pub open spec fn child_along(payload: NodePayload, names: Seq<NodeNameView>) -> Option<Arc<Node>>
    decreases names.len(),
{
    if names.len() == 0 {
        None
    } else if names.len() == 1 {
        first_named(payload.items@, names[0])
    } else {
        match last_named(payload.items@, names[0]) {
            Some(node) => child_along(node.payload, names.skip(1)),
            None => child_along(payload, names.skip(1)),
        }
    }
}

/// The node that names lead to from a node: the node itself if there are none.
pub open spec fn node_along(node: Arc<Node>, names: Seq<NodeNameView>) -> Option<Arc<Node>> {
    if names.len() == 0 {
        Some(node)
    } else {
        child_along(node.payload, names)
    }
}

/// The first property of a name among items.
pub open spec fn first_property(items: Seq<NodeItem>, name: Seq<char>) -> Option<Arc<Property>>
    decreases items.len(),
{
    if items.len() == 0 {
        None
    } else {
        match first_property(items.drop_last(), name) {
            Some(property) => Some(property),
            None => match items.last() {
                NodeItem::Property(property) if property.name.item@ == name => Some(property),
                _ => None,
            },
        }
    }
}

/// Finds the first node of a name among items.
fn find_first_named(items: &Vec<NodeItem>, name: &NodeName) -> (r: Option<Arc<Node>>)
    ensures
        r == first_named(items@, name@),
{
    let mut i: usize = 0;
    while i < items.len()
        invariant
            i <= items@.len(),
            first_named(items@.take(i as int), name@) is None,
        decreases items@.len() - i,
    {
        assert(items@.take(i + 1).drop_last() =~= items@.take(i as int));
        if let NodeItem::Node(node) = &items[i] {
            if node.name.item.same(name) {
                proof {
                    lemma_first_named_stays(items@, i + 1, name@);
                }
                return Some(node.clone());
            }
        }
        i += 1;
    }
    assert(items@.take(i as int) =~= items@);
    None
}

/// A first node of a name stays the first however many items follow.
proof fn lemma_first_named_stays(items: Seq<NodeItem>, taken: int, name: NodeNameView)
    requires
        0 <= taken <= items.len(),
        first_named(items.take(taken), name) is Some,
    ensures
        first_named(items, name) == first_named(items.take(taken), name),
    decreases items.len(),
{
    if taken == items.len() {
        assert(items.take(taken) =~= items);
    } else {
        assert(items.drop_last().take(taken) =~= items.take(taken));
        lemma_first_named_stays(items.drop_last(), taken, name);
    }
}

/// Finds the last node of a name among items.
fn find_last_named<'a>(items: &'a Vec<NodeItem>, name: &NodeName) -> (r: Option<&'a Arc<Node>>)
    ensures
        match r {
            Some(node) => last_named(items@, name@) == Some(*node),
            None => last_named(items@, name@) is None,
        },
{
    let mut i: usize = items.len();
    assert(items@.take(i as int) =~= items@);
    while i > 0
        invariant
            i <= items@.len(),
            last_named(items@.take(i as int), name@) == last_named(items@, name@),
        decreases i,
    {
        assert(items@.take(i as int).drop_last() =~= items@.take(i - 1));
        i -= 1;
        if let NodeItem::Node(node) = &items[i] {
            if node.name.item.same(name) {
                return Some(node);
            }
        }
    }
    None
}

/// Finds the node that names lead to from a payload.
pub(crate) fn find_child(payload: &NodePayload, path_elements: &[NodeName]) -> (r: Option<
    Arc<Node>,
>)
    ensures
        r == child_along(*payload, names_view(path_elements@)),
{
    if path_elements.len() == 0 {
        return None;
    }
    let ghost names = names_view(path_elements@);
    let last = path_elements.len() - 1;
    let mut current = payload;
    let mut i: usize = 0;
    assert(names.skip(0) =~= names);
    while i < last
        invariant
            last == path_elements@.len() - 1,
            i <= last,
            names == names_view(path_elements@),
            child_along(*current, names.skip(i as int)) == child_along(*payload, names),
        decreases last - i,
    {
        assert(names.skip(i as int).skip(1) =~= names.skip(i + 1));
        if let Some(node) = find_last_named(&current.items, &path_elements[i]) {
            current = &node.payload;
        }
        i += 1;
    }
    find_first_named(&current.items, &path_elements[last])
}

/// Finds the node that names lead to from a node.
pub(crate) fn find_node_child(node: &Arc<Node>, path_elements: &[NodeName]) -> (r: Option<
    Arc<Node>,
>)
    ensures
        r == node_along(*node, names_view(path_elements@)),
{
    if path_elements.len() == 0 {
        return Some(node.clone());
    }
    find_child(&node.payload, path_elements)
}

/// Finds the first property of a name among the items of a payload.
pub(crate) fn find_property(property_name: &str, payload: &NodePayload) -> (r: Option<
    Arc<Property>,
>)
    ensures
        r == first_property(payload.items@, property_name@),
{
    let name = property_name.to_owned();
    let items = &payload.items;
    let mut i: usize = 0;
    while i < items.len()
        invariant
            i <= items@.len(),
            items == payload.items,
            name@ == property_name@,
            first_property(items@.take(i as int), name@) is None,
        decreases items@.len() - i,
    {
        assert(items@.take(i + 1).drop_last() =~= items@.take(i as int));
        if let NodeItem::Property(property) = &items[i] {
            if property.name.item == name {
                proof {
                    lemma_first_property_stays(items@, i + 1, name@);
                }
                return Some(property.clone());
            }
        }
        i += 1;
    }
    assert(items@.take(i as int) =~= items@);
    None
}

/// A first property of a name stays the first however many items follow.
proof fn lemma_first_property_stays(items: Seq<NodeItem>, taken: int, name: Seq<char>)
    requires
        0 <= taken <= items.len(),
        first_property(items.take(taken), name) is Some,
    ensures
        first_property(items, name) == first_property(items.take(taken), name),
    decreases items.len(),
{
    if taken == items.len() {
        assert(items.take(taken) =~= items);
    } else {
        assert(items.drop_last().take(taken) =~= items.take(taken));
        lemma_first_property_stays(items.drop_last(), taken, name);
    }
}

/// The node in which a reference is written.
pub enum ReferenceContext<'a> {
    Root,
    Node(&'a Node),
}

/// Something that a label stands at.
#[derive(Debug)]
pub enum Labeled {
    Node(Arc<Node>, AbsolutePath),
    Property(Arc<Property>),
    ReferencedNode(Arc<ReferencedNode>),
}

/// Something that a label stands at, with the path of a node as mathematical text.
pub enum LabeledView {
    Node(Arc<Node>, Seq<NodeNameView>),
    Property(Arc<Property>),
    ReferencedNode(Arc<ReferencedNode>),
}

impl View for Labeled {
    type V = LabeledView;

    open spec fn view(&self) -> LabeledView {
        match self {
            Labeled::Node(node, path) => LabeledView::Node(*node, path@),
            Labeled::Property(property) => LabeledView::Property(*property),
            Labeled::ReferencedNode(node) => LabeledView::ReferencedNode(*node),
        }
    }
}

impl Clone for Labeled {
    fn clone(&self) -> (r: Labeled)
        ensures
            r@ == self@,
    {
        match self {
            Labeled::Node(node, path) => Labeled::Node(node.clone(), path.clone()),
            Labeled::Property(property) => Labeled::Property(property.clone()),
            Labeled::ReferencedNode(node) => Labeled::ReferencedNode(node.clone()),
        }
    }
}

/// The labels, nodes and included files of a device tree.
#[derive(Debug)]
pub struct AnalysisContext {
    labels: KeyedMap<String, Labeled>,
    flat_nodes: KeyedMap<AbsolutePath, Arc<Node>>,
    includes: KeyedMap<String, FileId>,
}

/// What labels stand at, which node each path leads to, and which file each name
/// stands for.
pub struct ContextView {
    pub labels: Map<Seq<char>, LabeledView>,
    pub nodes: Map<Seq<NodeNameView>, Arc<Node>>,
    pub includes: Map<Seq<char>, FileId>,
}

impl View for AnalysisContext {
    type V = ContextView;

    closed spec fn view(&self) -> ContextView {
        ContextView {
            labels: self.labels@.map_values(|labeled: Labeled| labeled@),
            nodes: self.flat_nodes@,
            includes: self.includes@,
        }
    }
}

fn same_node(node: &Arc<Node>) -> (r: Arc<Node>)
    ensures
        r == *node,
{
    node.clone()
}

fn same_file(file: &FileId) -> (r: FileId)
    ensures
        r == *file,
{
    *file
}

/// A map that holds the same files under the same names.
pub(crate) fn copy_of_includes(includes: &KeyedMap<String, FileId>) -> (r: KeyedMap<
    String,
    FileId,
>)
    ensures
        r@ == includes@,
{
    let r = includes.copy(same_file);
    assert(r@ =~= includes@);
    r
}

impl Clone for AnalysisContext {
    fn clone(&self) -> (r: AnalysisContext)
        ensures
            r@ == self@,
    {
        let r = AnalysisContext {
            labels: self.labels.copy(Labeled::clone),
            flat_nodes: self.flat_nodes.copy(same_node),
            includes: copy_of_includes(&self.includes),
        };
        assert(r@.labels =~= self@.labels);
        assert(r@.nodes =~= self@.nodes);
        assert(r@.includes =~= self@.includes);
        r
    }
}

/// What a map holds for a key.
pub open spec fn lookup<K, V>(map: Map<K, V>, key: K) -> Option<V> {
    if map.contains_key(key) {
        Some(map[key])
    } else {
        None
    }
}

impl ContextView {
    /// The context in which nothing is known.
    pub open spec fn empty() -> ContextView {
        ContextView { labels: Map::empty(), nodes: Map::empty(), includes: Map::empty() }
    }

    /// The node in which a reference is written.
    pub open spec fn node_of(self, ctx: ReferenceContext<'_>) -> Node {
        match ctx {
            ReferenceContext::Root => *self.nodes[Seq::empty()],
            ReferenceContext::Node(node) => *node,
        }
    }

    /// Whether it is known where a path starts: a path that starts at the root
    /// node needs one.
    pub open spec fn start_known(self, path: PathView, ctx: ReferenceContext<'_>) -> bool {
        path is DotRelative && ctx is Root ==> self.nodes.contains_key(Seq::empty())
    }

    /// Whether it is known where the path of a reference starts.
    pub open spec fn reference_start_known(
        self,
        reference: ReferenceView,
        ctx: ReferenceContext<'_>,
    ) -> bool {
        match reference {
            ReferenceView::Label(_) => true,
            ReferenceView::Path(path) => self.start_known(path, ctx),
            ReferenceView::PropertyPath(path) => self.start_known(path.node_path, ctx),
        }
    }

    /// The node that a path leads to. Behind the label of a node that is given by a
    /// reference, only what stands between its own braces is searched.
    pub open spec fn node_at(self, path: PathView, ctx: ReferenceContext<'_>) -> Option<Arc<Node>> {
        match path {
            PathView::Absolute(names) => lookup(self.nodes, names),
            PathView::DotRelative(names) => child_along(self.node_of(ctx).payload, names),
            PathView::LabelRelative(label, names) => match lookup(self.labels, label) {
                Some(LabeledView::Node(node, _)) => node_along(node, names),
                Some(LabeledView::ReferencedNode(node)) => child_along(node.payload, names),
                _ => None,
            },
        }
    }

    /// The property that a path leads to.
    pub open spec fn property_at(
        self,
        path: PropertyPathView,
        ctx: ReferenceContext<'_>,
    ) -> Option<Arc<Property>> {
        match self.node_at(path.node_path, ctx) {
            Some(node) => first_property(node.payload.items@, path.property_name),
            None => None,
        }
    }

    /// Where the thing stands that a reference means.
    pub open spec fn position_of(
        self,
        reference: ReferenceView,
        ctx: ReferenceContext<'_>,
    ) -> Option<(Span, FileId)> {
        match reference {
            ReferenceView::Label(label) => match lookup(self.labels, label) {
                Some(LabeledView::Node(node, _)) => Some(node_position(*node)),
                Some(LabeledView::ReferencedNode(node)) => label_position(*node),
                _ => None,
            },
            ReferenceView::Path(path) => match self.node_at(path, ctx) {
                Some(node) => Some(node_position(*node)),
                None => None,
            },
            ReferenceView::PropertyPath(path) => match self.property_at(path, ctx) {
                Some(property) => Some(
                    (property.name.token.span, property.name.token.source),
                ),
                None => None,
            },
        }
    }

    /// What there is to say of the thing that a reference means.
    pub open spec fn referred_text(
        self,
        reference: ReferenceView,
        ctx: ReferenceContext<'_>,
    ) -> Option<Seq<char>> {
        match reference {
            ReferenceView::Label(label) => match lookup(self.labels, label) {
                Some(LabeledView::Node(node, _)) => Some(name_text(node.name.item@)),
                Some(LabeledView::ReferencedNode(node)) => match node.label {
                    Some(label) => Some(label.item@),
                    None => None,
                },
                _ => None,
            },
            ReferenceView::Path(path) => match self.node_at(path, ctx) {
                Some(node) => Some(node.name.item.name@),
                None => None,
            },
            ReferenceView::PropertyPath(path) => match self.property_at(path, ctx) {
                Some(property) => Some(joined(value_texts(property.values@), ", "@)),
                None => None,
            },
        }
    }
}

/// Where the name of a node stands.
pub open spec fn node_position(node: Node) -> (Span, FileId) {
    (node.name.token.span, node.name.token.source)
}

/// Where the label of a node stands that is given by a reference.
pub open spec fn label_position(node: ReferencedNode) -> Option<(Span, FileId)> {
    match node.label {
        Some(label) => Some((label.token.span, label.token.source)),
        None => None,
    }
}

impl Default for AnalysisContext {
    fn default() -> (r: AnalysisContext)
        ensures
            r@ == ContextView::empty(),
    {
        AnalysisContext::with_includes(KeyedMap::new())
    }
}

impl AnalysisContext {
    /// The context in which only included files are known.
    pub fn with_includes(includes: KeyedMap<String, FileId>) -> (r: AnalysisContext)
        ensures
            r@ == (ContextView { includes: includes@, ..ContextView::empty() }),
    {
        let r = AnalysisContext { labels: KeyedMap::new(), flat_nodes: KeyedMap::new(), includes };
        assert(r@.labels =~= Map::<Seq<char>, LabeledView>::empty());
        r
    }

    /// Notes what a label stands at, in place of what it stood at before.
    pub(crate) fn insert_label(&mut self, label: &String, labeled: Labeled)
        ensures
            final(self)@ == (ContextView {
                labels: old(self)@.labels.insert(label@, labeled@),
                ..old(self)@
            }),
    {
        self.labels.insert(label.clone(), labeled);
        assert(self@.labels =~= old(self)@.labels.insert(label@, labeled@));
    }

    /// Notes which node a path leads to, in place of what it led to before.
    pub(crate) fn insert_node(&mut self, path: &AbsolutePath, node: Arc<Node>)
        ensures
            final(self)@ == (ContextView {
                nodes: old(self)@.nodes.insert(path@, node),
                ..old(self)@
            }),
    {
        self.flat_nodes.insert(path.clone(), node);
    }

    /// What a label stands at.
    pub(crate) fn labeled(&self, label: &String) -> (r: Option<&Labeled>)
        ensures
            match r {
                Some(labeled) => lookup(self@.labels, label@) == Some(labeled@),
                None => lookup(self@.labels, label@) is None,
            },
    {
        self.labels.get(label)
    }

    /// The node that a path from the root leads to.
    pub(crate) fn node(&self, path: &AbsolutePath) -> (r: Option<&Arc<Node>>)
        ensures
            match r {
                Some(node) => lookup(self@.nodes, path@) == Some(*node),
                None => lookup(self@.nodes, path@) is None,
            },
    {
        self.flat_nodes.get(path)
    }

    /// The included files that are known.
    pub fn get_includes(&self) -> (r: &KeyedMap<String, FileId>)
        ensures
            r@ == self@.includes,
    {
        &self.includes
    }

    /// The node that a label stands at.
    pub fn get_node_by_label(&self, label: &str) -> (r: Option<&Arc<Node>>)
        ensures
            match lookup(self@.labels, label@) {
                Some(LabeledView::Node(node, _)) => r == Some(&node),
                _ => r is None,
            },
    {
        match self.labeled(&label.to_owned()) {
            Some(Labeled::Node(node, _)) => Some(node),
            _ => None,
        }
    }

    /// Whether it is known where the path of a reference starts.
    pub fn knows_start(&self, reference: &Reference, ctx: &ReferenceContext<'_>) -> (r: bool)
        ensures
            r == self@.reference_start_known(reference@, *ctx),
    {
        let path = match reference {
            Reference::Label(_) => {
                return true;
            },
            Reference::Path(path) => path,
            Reference::PropertyPath(path) => &path.node_path,
        };
        match (path, ctx) {
            (Path::DotRelative(_), ReferenceContext::Root) => self.node(
                &AbsolutePath::root(),
            ).is_some(),
            _ => true,
        }
    }

    /// The node in which a reference is written.
    fn node_from_ctx<'a>(&'a self, ctx: &ReferenceContext<'a>) -> (r: &'a Node)
        requires
            ctx is Root ==> self@.nodes.contains_key(Seq::empty()),
        ensures
            *r == self@.node_of(*ctx),
    {
        match ctx {
            ReferenceContext::Root => {
                match self.node(&AbsolutePath::root()) {
                    Some(node) => &**node,
                    None => {
                        assert(false);
                        vstd::pervasive::unreached()
                    },
                }
            },
            ReferenceContext::Node(node) => node,
        }
    }

    /// The node that a path leads to.
    pub fn get_node_by_path(&self, path: &Path, ctx: &ReferenceContext<'_>) -> (r: Option<
        Arc<Node>,
    >)
        requires
            self@.start_known(path@, *ctx),
        ensures
            r == self@.node_at(path@, *ctx),
    {
        match path {
            Path::Absolute(path) => match self.node(path) {
                Some(node) => Some(node.clone()),
                None => None,
            },
            Path::DotRelative(path) => find_child(
                &self.node_from_ctx(ctx).payload,
                path.elements(),
            ),
            Path::LabelRelative(path) => match self.labeled(&path.label) {
                Some(Labeled::Node(node, _)) => find_node_child(node, path.elements()),
                Some(Labeled::ReferencedNode(node)) => find_child(&node.payload, path.elements()),
                _ => None,
            },
        }
    }

    /// Where the name of a node stands.
    pub fn get_node_position(&self, node: &Arc<Node>) -> (r: (Span, FileId))
        ensures
            r == node_position(**node),
    {
        (node.name.span(), node.name.source())
    }

    /// Where the label of a node stands that is given by a reference.
    pub fn get_referenced_node_position(&self, node: &Arc<ReferencedNode>) -> (r: Option<
        (Span, FileId),
    >)
        ensures
            r == label_position(**node),
    {
        match &node.label {
            Some(label) => Some((label.span(), label.source())),
            None => None,
        }
    }

    /// The first property of a name in a payload.
    pub fn get_property_from_payload(&self, property_name: &str, payload: &NodePayload) -> (r:
        Option<Arc<Property>>)
        ensures
            r == first_property(payload.items@, property_name@),
    {
        find_property(property_name, payload)
    }

    /// The property that a path leads to.
    fn get_property_from_property_path(
        &self,
        path: &PropertyPath,
        ctx: &ReferenceContext<'_>,
    ) -> (r: Option<Arc<Property>>)
        requires
            self@.start_known(path@.node_path, *ctx),
        ensures
            r == self@.property_at(path@, *ctx),
    {
        match self.get_node_by_path(path.node_path(), ctx) {
            Some(node) => self.get_property_from_payload(path.property_name(), &node.payload),
            None => None,
        }
    }

    /// Where the thing stands that a reference means.
    pub fn get_position(&self, reference: &Reference, ctx: &ReferenceContext<'_>) -> (r: Option<
        (Span, FileId),
    >)
        requires
            self@.reference_start_known(reference@, *ctx),
        ensures
            r == self@.position_of(reference@, *ctx),
    {
        match reference {
            Reference::Label(label) => match self.labeled(label) {
                Some(Labeled::Node(node, _)) => Some(self.get_node_position(node)),
                Some(Labeled::ReferencedNode(node)) => self.get_referenced_node_position(node),
                _ => None,
            },
            Reference::Path(path) => match self.get_node_by_path(path, ctx) {
                Some(node) => Some(self.get_node_position(&node)),
                None => None,
            },
            Reference::PropertyPath(path) => {
                match self.get_property_from_property_path(path, ctx) {
                    Some(property) => Some((property.name.span(), property.name.source())),
                    None => None,
                }
            },
        }
    }

    /// What there is to say of the thing that a reference means.
    pub fn get_referred(&self, reference: &Reference, ctx: &ReferenceContext<'_>) -> (r: Option<
        String,
    >)
        requires
            self@.reference_start_known(reference@, *ctx),
        ensures
            match r {
                Some(text) => self@.referred_text(reference@, *ctx) == Some(text@),
                None => self@.referred_text(reference@, *ctx) is None,
            },
    {
        match reference {
            Reference::Label(label) => match self.labeled(label) {
                Some(Labeled::Node(node, _)) => Some(node.name.item.to_string()),
                Some(Labeled::ReferencedNode(node)) => match &node.label {
                    Some(label) => Some(label.item.clone()),
                    None => None,
                },
                _ => None,
            },
            Reference::Path(path) => match self.get_node_by_path(path, ctx) {
                Some(node) => Some(node.name.item.name.clone()),
                None => None,
            },
            Reference::PropertyPath(path) => {
                match self.get_property_from_property_path(path, ctx) {
                    Some(property) => Some(join(&write_values(&property.values), ", ")),
                    None => None,
                }
            },
        }
    }
}

} // verus!
