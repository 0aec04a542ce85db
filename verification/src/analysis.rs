//! The analysis of source files: which labels and nodes there are, and what is
//! wrong with the files.
use crate::ast::{
    AbsolutePath, AnyDirective, Cell, DtsFile, Include, LabelRelativePath, Node, NodeItem,
    NodeNameView, NodePayload, Path, PathView, Primary, Property, PropertyPath, PropertyPathView,
    PropertyValue, Reference, ReferenceView, ReferencedNode, WithToken,
};
use crate::context::{
    find_child, find_node_child, find_property, first_property, lookup, node_along, AnalysisContext,
    ContextView, Labeled, LabeledView,
};
use crate::data::{FileId, FileType, HasSource, HasSpan, Position, Span, Token};
use crate::diagnostics::{
    cyclic_dependency_view, diagnostics_view, io_error_view, Diagnostic, DiagnosticView,
};
use crate::error_codes::ErrorCode;
use crate::graph::Edges;
use crate::import_guard::{acyclic, closes_circle, import_edges, ImportGuard};
use crate::keyed::KeyedMap;
use crate::loader::LoadOutcome;
use crate::project::{Project, ProjectView};
use crate::tree::{
    bind_all, cells_references, deferred, is_single_number, is_single_string, items_deferred,
    items_findings, items_labels, items_paths, items_requests, lemma_bind_all_more, local_findings,
    node_labels, node_paths, non_string_findings, own_labels, primaries_requests, primary_requests,
    property_finding, property_findings, property_labels, referenced_labels, schema_findings,
    value_findings, value_references, value_requests, values_deferred, values_findings,
    values_requests, PlacedReference,
};
use std::sync::Arc;
use vstd::prelude::*;

verus! {

/// An analysis: the imports that it has met and what it knows of the device tree.
pub struct Analysis {
    import_guard: ImportGuard,
    context: AnalysisContext,
}

/// An analysis as a mathematical value.
pub struct AnalysisView {
    pub imports: Edges,
    pub context: ContextView,
}

impl View for Analysis {
    type V = AnalysisView;

    closed spec fn view(&self) -> AnalysisView {
        AnalysisView { imports: self.import_guard@, context: self.context@ }
    }
}

/// What the analysis of a file has found.
pub struct AnalysisResult {
    pub diagnostics: Vec<Diagnostic>,
}

/// The analysis of one file, on the way.
pub struct FileContext<'a> {
    pub source: FileId,
    pub project: &'a Project,
    /// What came of the search for each file that is named in this one, in the
    /// order in which they are named.
    pub loads: &'a [LoadOutcome],
    /// How many of the files that are named have been met.
    pub next_load: usize,
    pub diagnostics: Vec<Diagnostic>,
    pub references_to_be_checked: Vec<WithToken<Reference>>,
    pub file_type: FileType,
    pub is_plugin: bool,
    pub first_non_include: bool,
    pub dts_header_seen: bool,
}

/// The analysis of one file, on the way, as a mathematical value.
pub struct FileView {
    pub source: FileId,
    pub project: ProjectView,
    pub loads: Seq<LoadOutcome>,
    pub next_load: int,
    pub diagnostics: Seq<DiagnosticView>,
    pub deferred: Seq<PlacedReference>,
    pub file_type: FileType,
    pub is_plugin: bool,
    pub first_non_include: bool,
    pub dts_header_seen: bool,
}

/// References with where they stand.
pub open spec fn placed(references: Seq<WithToken<Reference>>) -> Seq<PlacedReference> {
    references.map_values(|reference: WithToken<Reference>| reference@)
}

impl<'a> View for FileContext<'a> {
    type V = FileView;

    open spec fn view(&self) -> FileView {
        FileView {
            source: self.source,
            project: self.project@,
            loads: self.loads@,
            next_load: self.next_load as int,
            diagnostics: diagnostics_view(self.diagnostics@),
            deferred: placed(self.references_to_be_checked@),
            file_type: self.file_type,
            is_plugin: self.is_plugin,
            first_non_include: self.first_non_include,
            dts_header_seen: self.dts_header_seen,
        }
    }
}

impl FileView {
    /// Whether references that lead nowhere are reported. They are not in a file that
    /// is only a part of a device tree, nor in a plugin.
    pub open spec fn reports(self) -> bool {
        self.file_type == FileType::DtSource && !self.is_plugin
    }

    /// With more findings.
    pub open spec fn found(self, findings: Seq<DiagnosticView>) -> FileView {
        FileView { diagnostics: self.diagnostics + findings, ..self }
    }

    /// With the findings about references, and with those that are left for later.
    pub open spec fn met_references(
        self,
        references: Seq<PlacedReference>,
        in_node: NodePayload,
    ) -> FileView {
        FileView {
            diagnostics: self.diagnostics + local_findings(references, in_node, self.reports()),
            deferred: self.deferred + deferred(references),
            ..self
        }
    }

    /// With the findings about, the references in, and the files named by a value.
    pub open spec fn met_value(self, value: PropertyValue, in_node: NodePayload) -> FileView {
        FileView {
            diagnostics: self.diagnostics + value_findings(
                value,
                in_node,
                self.reports(),
                self.loads,
                self.next_load,
            ),
            deferred: self.deferred + deferred(value_references(value)),
            next_load: self.next_load + value_requests(value).len(),
            ..self
        }
    }

    /// With the findings about, the references in, and the files named by a property
    /// of a node at a path.
    pub open spec fn met_property(
        self,
        property: Property,
        in_node: NodePayload,
        path: Seq<NodeNameView>,
    ) -> FileView {
        FileView {
            diagnostics: self.diagnostics + property_findings(
                property,
                in_node,
                path,
                self.reports(),
                self.loads,
                self.next_load,
            ),
            deferred: self.deferred + values_deferred(property.values@),
            next_load: self.next_load + values_requests(property.values@).len(),
            ..self
        }
    }

    /// With the findings about, the references in, and the files named by items of a
    /// node at a path.
    pub open spec fn met_items(
        self,
        items: Seq<NodeItem>,
        in_node: NodePayload,
        path: Seq<NodeNameView>,
    ) -> FileView {
        FileView {
            diagnostics: self.diagnostics + items_findings(
                items,
                in_node,
                path,
                self.reports(),
                self.loads,
                self.next_load,
            ),
            deferred: self.deferred + items_deferred(items),
            next_load: self.next_load + items_requests(items).len(),
            ..self
        }
    }

    /// Whether what came of the search for further files is there.
    pub open spec fn has_loads(self, requests: Seq<Seq<char>>) -> bool {
        0 <= self.next_load && self.next_load + requests.len() <= self.loads.len()
    }
}

impl ContextView {
    /// With further labels.
    pub open spec fn with_labels(self, labels: Seq<(Seq<char>, LabeledView)>) -> ContextView {
        ContextView { labels: bind_all(self.labels, labels), ..self }
    }

    /// With further nodes.
    pub open spec fn with_nodes(
        self,
        nodes: Seq<(Seq<NodeNameView>, Arc<Node>)>,
    ) -> ContextView {
        ContextView { nodes: bind_all(self.nodes, nodes), ..self }
    }

    /// The path from the root that a path in the outermost part of a file leads to.
    /// One that starts at the node in which it is written leads nowhere there.
    pub open spec fn root_path(self, path: PathView) -> Option<Seq<NodeNameView>> {
        match path {
            PathView::Absolute(names) => if self.nodes.contains_key(names) {
                Some(names)
            } else {
                None
            },
            PathView::DotRelative(_) => None,
            PathView::LabelRelative(label, names) => match lookup(self.labels, label) {
                Some(LabeledView::Node(node, path)) => if node_along(node, names) is Some {
                    Some(path + names)
                } else {
                    None
                },
                _ => None,
            },
        }
    }

    /// The path from the root to the node whose property a path leads to.
    pub open spec fn root_property_path(self, path: PropertyPathView) -> Option<
        Seq<NodeNameView>,
    > {
        match self.root_path(path.node_path) {
            Some(names) => if self.nodes.contains_key(names) && first_property(
                self.nodes[names].payload.items@,
                path.property_name,
            ) is Some {
                Some(names)
            } else {
                None
            },
            None => None,
        }
    }

    /// The path from the root that a reference in the outermost part of a file leads
    /// to.
    pub open spec fn referenced_path(self, reference: ReferenceView) -> Option<
        Seq<NodeNameView>,
    > {
        match reference {
            ReferenceView::Label(label) => match lookup(self.labels, label) {
                Some(LabeledView::Node(_, path)) => Some(path),
                _ => None,
            },
            ReferenceView::Path(path) => self.root_path(path),
            ReferenceView::PropertyPath(path) => self.root_property_path(path),
        }
    }

    /// Whether a reference leads somewhere, once all is known.
    pub open spec fn resolves(self, reference: ReferenceView) -> bool {
        match reference {
            ReferenceView::Label(label) => self.labels.contains_key(label),
            ReferenceView::Path(path) => self.root_path(path) is Some,
            ReferenceView::PropertyPath(path) => self.root_property_path(path) is Some,
        }
    }
}

/// The findings about references that were left for later.
pub open spec fn deferred_findings(
    references: Seq<PlacedReference>,
    context: ContextView,
    reports: bool,
) -> Seq<DiagnosticView>
    decreases references.len(),
{
    if references.len() == 0 {
        Seq::empty()
    } else {
        deferred_findings(references.drop_last(), context, reports) + if reports
            && !context.resolves(references.last().reference) {
            seq![references.last().unresolved()]
        } else {
            Seq::empty()
        }
    }
}

impl AnalysisView {
    /// With the labels and nodes in items of a node at a path.
    pub open spec fn met_items(
        self,
        items: Seq<NodeItem>,
        path: Seq<NodeNameView>,
    ) -> AnalysisView {
        AnalysisView {
            context: self.context.with_labels(items_labels(items, path)).with_nodes(
                items_paths(items, path),
            ),
            ..self
        }
    }

    /// With the labels and nodes in a node at a path, and the node itself.
    pub open spec fn met_node(self, node: Arc<Node>, path: Seq<NodeNameView>) -> AnalysisView {
        AnalysisView {
            context: self.context.with_labels(node_labels(node, path)).with_nodes(
                node_paths(node, path),
            ),
            ..self
        }
    }
}

impl<'a> FileContext<'a> {
    /// Adds a finding.
    pub fn add_diagnostic(&mut self, diagnostic: Diagnostic)
        ensures
            final(self)@ == old(self)@.found(seq![diagnostic@]),
    {
        self.diagnostics.push(diagnostic);
        assert(self@.diagnostics =~= old(self)@.diagnostics + seq![diagnostic@]);
    }

    /// What was found in the file.
    pub fn into_result(self) -> (r: AnalysisResult)
        ensures
            diagnostics_view(r.diagnostics@) == self@.diagnostics,
    {
        AnalysisResult { diagnostics: self.diagnostics }
    }

    /// Reports a reference that leads nowhere.
    fn unresolved_reference_error(&mut self, span: Span, source: FileId)
        ensures
            final(self)@ == old(self)@.found(
                if old(self)@.reports() {
                    seq![
                        DiagnosticView {
                            span,
                            source,
                            kind: ErrorCode::UnresolvedReference,
                            message: "Reference cannot be resolved"@,
                        },
                    ]
                } else {
                    Seq::empty()
                },
            ),
    {
        if self.file_type == FileType::DtSource && !self.is_plugin {
            self.add_diagnostic(
                Diagnostic::new(
                    span,
                    source,
                    ErrorCode::UnresolvedReference,
                    "Reference cannot be resolved",
                ),
            );
        } else {
            assert(self@.diagnostics + Seq::empty() =~= self@.diagnostics);
        }
    }
}

impl Analysis {
    /// An analysis that knows at most of included files.
    pub fn new(include_cache: Option<KeyedMap<String, FileId>>) -> (r: Analysis)
        ensures
            r@.imports == Set::<(FileId, FileId)>::empty(),
            r@.context == (ContextView {
                includes: match include_cache {
                    Some(includes) => includes@,
                    None => Map::empty(),
                },
                ..ContextView::empty()
            }),
    {
        let context = match include_cache {
            Some(includes) => AnalysisContext::with_includes(includes),
            None => AnalysisContext::default(),
        };
        Analysis { import_guard: ImportGuard::new(), context }
    }

    /// What is known of the device tree.
    pub fn into_context(self) -> (r: AnalysisContext)
        ensures
            r@ == self@.context,
    {
        self.context
    }

    /// A path from the root, if it leads to a node.
    fn get_valid_absolute_path(&self, absolute_path: &AbsolutePath) -> (r: Option<AbsolutePath>)
        ensures
            match r {
                Some(path) => self@.context.root_path(PathView::Absolute(absolute_path@)) == Some(
                    path@,
                ),
                None => self@.context.root_path(PathView::Absolute(absolute_path@)) is None,
            },
    {
        match self.context.node(absolute_path) {
            Some(_) => Some(absolute_path.clone()),
            None => None,
        }
    }

    /// The path from the root that a path from a label leads to.
    fn get_valid_absolute_path_from_label_relative_path(
        &self,
        label_relative_path: &LabelRelativePath,
    ) -> (r: Option<AbsolutePath>)
        ensures
            match r {
                Some(path) => self@.context.root_path(
                    Path::LabelRelative(*label_relative_path)@,
                ) == Some(path@),
                None => self@.context.root_path(
                    Path::LabelRelative(*label_relative_path)@,
                ) is None,
            },
    {
        match self.context.labeled(&label_relative_path.label) {
            Some(Labeled::Node(node, label_absolute_path)) => {
                let elements = label_relative_path.elements();
                match find_node_child(node, elements) {
                    Some(_) => Some(label_absolute_path.with_children(elements)),
                    None => None,
                }
            },
            _ => None,
        }
    }

    /// The path from the root that a path in the outermost part of a file leads to.
    fn get_absolute_path_from_path_in_root_ctx(&self, path: &Path) -> (r: Option<AbsolutePath>)
        ensures
            match r {
                Some(names) => self@.context.root_path(path@) == Some(names@),
                None => self@.context.root_path(path@) is None,
            },
    {
        match path {
            Path::Absolute(path) => self.get_valid_absolute_path(path),
            Path::DotRelative(_) => None,
            Path::LabelRelative(path) => {
                self.get_valid_absolute_path_from_label_relative_path(path)
            },
        }
    }

    /// The path from the root to the node whose property a path leads to.
    fn get_absolute_path_from_property_path_in_root_ctx(&self, path: &PropertyPath) -> (r:
        Option<AbsolutePath>)
        ensures
            match r {
                Some(names) => self@.context.root_property_path(path@) == Some(names@),
                None => self@.context.root_property_path(path@) is None,
            },
    {
        let absolute_path = match self.get_absolute_path_from_path_in_root_ctx(path.node_path()) {
            Some(absolute_path) => absolute_path,
            None => {
                return None;
            },
        };
        match self.context.node(&absolute_path) {
            Some(node) => match find_property(path.property_name(), &node.payload) {
                Some(_) => Some(absolute_path),
                None => None,
            },
            None => None,
        }
    }

    /// The path from the root that a reference in the outermost part of a file leads
    /// to. It is reported if there is none.
    fn get_absolute_path_from_reference_in_root_ctx(
        &self,
        ctx: &mut FileContext<'_>,
        reference: &WithToken<Reference>,
    ) -> (r: Option<AbsolutePath>)
        ensures
            match r {
                Some(names) => self@.context.referenced_path(reference@.reference) == Some(
                    names@,
                ),
                None => self@.context.referenced_path(reference@.reference) is None,
            },
            final(ctx)@ == old(ctx)@.found(
                if old(ctx)@.reports() && r is None {
                    seq![reference@.unresolved()]
                } else {
                    Seq::empty()
                },
            ),
    {
        let path = match &reference.item {
            Reference::Label(label) => match self.context.labeled(label) {
                Some(Labeled::Node(_, absolute_path)) => Some(absolute_path.clone()),
                _ => None,
            },
            Reference::Path(path) => self.get_absolute_path_from_path_in_root_ctx(path),
            Reference::PropertyPath(path) => {
                self.get_absolute_path_from_property_path_in_root_ctx(path)
            },
        };
        if path.is_none() {
            ctx.unresolved_reference_error(reference.span(), reference.source());
        } else {
            assert(ctx@.diagnostics + Seq::empty() =~= ctx@.diagnostics);
        }
        path
    }
}

impl Analysis {
    /// Checks a reference that starts at the node in which it is written, and leaves
    /// others for later.
    pub fn analyze_reference(
        &self,
        ctx: &mut FileContext<'_>,
        reference: &WithToken<Reference>,
        in_node: &NodePayload,
    )
        ensures
            final(ctx)@ == old(ctx)@.met_references(seq![reference@], *in_node),
    {
        proof {
            let one = seq![reference@];
            assert(one.drop_last() =~= Seq::empty());
            assert(local_findings(one.drop_last(), *in_node, ctx@.reports()) =~= Seq::empty());
            assert(deferred(one.drop_last()) =~= Seq::empty());
        }
        let ok: Option<bool> = match &reference.item {
            Reference::Path(Path::DotRelative(path)) => Some(
                find_child(in_node, path.elements()).is_some(),
            ),
            Reference::PropertyPath(property_path) => match property_path.node_path() {
                Path::DotRelative(path) => {
                    Some(
                        match find_child(in_node, path.elements()) {
                            Some(child) => self.context.get_property_from_payload(
                                property_path.property_name(),
                                &child.payload,
                            ).is_some(),
                            None => false,
                        },
                    )
                },
                _ => None,
            },
            _ => None,
        };
        match ok {
            Some(ok) => {
                if !ok {
                    ctx.unresolved_reference_error(reference.span(), reference.source());
                }
            },
            None => {
                ctx.references_to_be_checked.push(
                    WithToken::new(reference.item.clone(), reference.token),
                );
            },
        }
        assert(ctx@.diagnostics =~= old(ctx)@.met_references(
            seq![reference@],
            *in_node,
        ).diagnostics);
        assert(ctx@.deferred =~= old(ctx)@.met_references(seq![reference@], *in_node).deferred);
    }

    /// Checks the reference in a cell.
    pub fn analyze_cell(&self, ctx: &mut FileContext<'_>, value: &Cell, in_node: &NodePayload)
        ensures
            final(ctx)@ == old(ctx)@.met_references(cells_references(seq![*value]), *in_node),
    {
        proof {
            let one = seq![*value];
            assert(one.drop_last() =~= Seq::empty());
            assert(cells_references(one.drop_last()) =~= Seq::empty());
        }
        match value {
            Cell::Reference(reference) => {
                self.analyze_reference(ctx, reference, in_node);
                assert(cells_references(seq![*value]) =~= seq![reference@]);
            },
            _ => {
                assert(cells_references(seq![*value]) =~= Seq::empty());
                assert(ctx@.diagnostics + Seq::empty() =~= ctx@.diagnostics);
                assert(ctx@.deferred + Seq::empty() =~= ctx@.deferred);
            },
        }
    }

    /// Reports a file that could not be found.
    pub fn analyze_incbin(&self, ctx: &mut FileContext<'_>, inclusion: &Include, span: Span)
        requires
            old(ctx)@.has_loads(seq![inclusion.file_name.item@]),
        ensures
            final(ctx)@ == (FileView {
                next_load: old(ctx)@.next_load + 1,
                ..old(ctx)@.found(
                    match old(ctx)@.loads[old(ctx)@.next_load] {
                        Ok(_) => Seq::empty(),
                        Err(err) => seq![
                            io_error_view(span, inclusion.spec_source(), err.message@),
                        ],
                    },
                )
            }),
    {
        let count = ctx.loads.len();
        assert(ctx.next_load < count);
        match &ctx.loads[ctx.next_load] {
            Ok(_) => {
                assert(ctx@.diagnostics + Seq::empty() =~= ctx@.diagnostics);
            },
            Err(err) => {
                let diagnostic = Diagnostic::io_error(span, inclusion.source(), err);
                ctx.add_diagnostic(diagnostic);
            },
        }
        ctx.next_load += 1;
    }

    /// Checks the references and the file in a value.
    pub fn analyze_property_value(
        &self,
        ctx: &mut FileContext<'_>,
        value: &PropertyValue,
        in_node: &NodePayload,
    )
        requires
            old(ctx)@.has_loads(value_requests(*value)),
        ensures
            final(ctx)@ == old(ctx)@.met_value(*value, *in_node),
    {
        match value {
            PropertyValue::Cells(_, cells, _) => {
                self.analyze_cells(ctx, cells, in_node);
            },
            PropertyValue::Reference(reference) => {
                self.analyze_reference(ctx, reference, in_node);
            },
            PropertyValue::Incbin(_, inclusion, _) => {
                self.analyze_incbin(ctx, inclusion, value.span());
                assert(ctx@.deferred =~= old(ctx)@.met_value(*value, *in_node).deferred);
            },
            _ => {
                assert(ctx@.diagnostics =~= ctx@.met_value(*value, *in_node).diagnostics);
                assert(ctx@.deferred =~= ctx@.met_value(*value, *in_node).deferred);
            },
        }
    }

    /// Checks the references in cells.
    fn analyze_cells(&self, ctx: &mut FileContext<'_>, cells: &Vec<Cell>, in_node: &NodePayload)
        ensures
            final(ctx)@ == old(ctx)@.met_references(cells_references(cells@), *in_node),
    {
        let mut i: usize = 0;
        proof {
            assert(ctx@.diagnostics =~= ctx@.met_references(
                cells_references(cells@.take(0)),
                *in_node,
            ).diagnostics);
            assert(ctx@.deferred =~= ctx@.met_references(
                cells_references(cells@.take(0)),
                *in_node,
            ).deferred);
        }
        while i < cells.len()
            invariant
                i <= cells@.len(),
                ctx@ == old(ctx)@.met_references(
                    cells_references(cells@.take(i as int)),
                    *in_node,
                ),
            decreases cells@.len() - i,
        {
            self.analyze_cell(ctx, &cells[i], in_node);
            proof {
                let taken = cells@.take(i as int);
                let cell = cells@[i as int];
                assert(cells@.take(i + 1).drop_last() =~= taken);
                assert(seq![cell].drop_last() =~= Seq::empty());
                assert(cells_references(seq![cell].drop_last()) =~= Seq::empty());
                let more = cells_references(seq![cell]);
                assert(cells_references(cells@.take(i + 1)) =~= cells_references(taken) + more);
                lemma_deferred_more(cells_references(taken), more);
                lemma_local_findings_more(
                    cells_references(taken),
                    more,
                    *in_node,
                    old(ctx)@.reports(),
                );
                let now = old(ctx)@.met_references(
                    cells_references(cells@.take(i + 1)),
                    *in_node,
                );
                assert(ctx@.diagnostics =~= now.diagnostics);
                assert(ctx@.deferred =~= now.deferred);
            }
            i += 1;
        }
        assert(cells@.take(i as int) =~= cells@);
    }
}

/// What is left for later of references and further references.
proof fn lemma_deferred_more(references: Seq<PlacedReference>, more: Seq<PlacedReference>)
    ensures
        deferred(references + more) == deferred(references) + deferred(more),
    decreases more.len(),
{
    if more.len() == 0 {
        assert(references + more =~= references);
        assert(deferred(references + more) =~= deferred(references) + deferred(more));
    } else {
        assert((references + more).drop_last() =~= references + more.drop_last());
        lemma_deferred_more(references, more.drop_last());
        assert(deferred(references + more) =~= deferred(references) + deferred(more));
    }
}

/// The findings about references and further references.
proof fn lemma_local_findings_more(
    references: Seq<PlacedReference>,
    more: Seq<PlacedReference>,
    in_node: NodePayload,
    reports: bool,
)
    ensures
        local_findings(references + more, in_node, reports) == local_findings(
            references,
            in_node,
            reports,
        ) + local_findings(more, in_node, reports),
    decreases more.len(),
{
    if more.len() == 0 {
        assert(references + more =~= references);
        assert(local_findings(references + more, in_node, reports) =~= local_findings(
            references,
            in_node,
            reports,
        ) + local_findings(more, in_node, reports));
    } else {
        assert((references + more).drop_last() =~= references + more.drop_last());
        lemma_local_findings_more(references, more.drop_last(), in_node, reports);
        assert(local_findings(references + more, in_node, reports) =~= local_findings(
            references,
            in_node,
            reports,
        ) + local_findings(more, in_node, reports));
    }
}

impl Analysis {
    /// Reports each value of a property that is not a string.
    fn check_is_string_list(&self, ctx: &mut FileContext<'_>, property: &Property)
        ensures
            final(ctx)@ == old(ctx)@.found(non_string_findings(property.values@)),
    {
        let values = &property.values;
        let mut i: usize = 0;
        assert(ctx@.diagnostics + Seq::empty() =~= ctx@.diagnostics);
        assert(non_string_findings(values@.take(0)) =~= Seq::empty());
        while i < values.len()
            invariant
                i <= values@.len(),
                values == property.values,
                ctx@ == old(ctx)@.found(non_string_findings(values@.take(i as int))),
            decreases values@.len() - i,
        {
            assert(values@.take(i + 1).drop_last() =~= values@.take(i as int));
            match &values[i] {
                PropertyValue::String(_) => {},
                value => {
                    ctx.add_diagnostic(
                        Diagnostic::new(
                            value.span(),
                            value.source(),
                            ErrorCode::NonStringInCompatible,
                            "compatible property should only contain strings",
                        ),
                    );
                },
            }
            assert(ctx@.diagnostics =~= old(ctx)@.found(
                non_string_findings(values@.take(i + 1)),
            ).diagnostics);
            i += 1;
        }
        assert(values@.take(i as int) =~= values@);
    }

    /// The single string that a property holds. It is reported if it holds something
    /// else.
    fn check_is_single_string(&self, ctx: &mut FileContext<'_>, property: &Property) -> (r:
        Option<String>)
        ensures
            match r {
                Some(text) => is_single_string(property.values@)
                    && property.values@[0]->String_0.item@ == text@,
                None => !is_single_string(property.values@),
            },
            final(ctx)@ == old(ctx)@.found(
                if r is Some {
                    Seq::empty()
                } else {
                    seq![
                        property_finding(
                            *property,
                            ErrorCode::ExpectedString,
                            "property should contain a single string"@,
                        ),
                    ]
                },
            ),
    {
        if property.values.len() == 1 {
            if let PropertyValue::String(text) = &property.values[0] {
                assert(ctx@.diagnostics + Seq::empty() =~= ctx@.diagnostics);
                return Some(text.item.clone());
            }
        }
        ctx.add_diagnostic(
            Diagnostic::new(
                property.span(),
                property.source(),
                ErrorCode::ExpectedString,
                "property should contain a single string",
            ),
        );
        None
    }

    /// The single number that a property holds. It is reported if it holds something
    /// else.
    fn check_is_single_u32(&self, ctx: &mut FileContext<'_>, property: &Property) -> (r: Option<
        u32,
    >)
        ensures
            match r {
                Some(number) => is_single_number(property.values@)
                    && property.values@[0]->Cells_1@[0]->Number_0.item == number,
                None => !is_single_number(property.values@),
            },
            final(ctx)@ == old(ctx)@.found(
                if r is Some {
                    Seq::empty()
                } else {
                    seq![
                        property_finding(
                            *property,
                            ErrorCode::ExpectedU32,
                            "property should contain a single number"@,
                        ),
                    ]
                },
            ),
    {
        if property.values.len() == 1 {
            if let PropertyValue::Cells(_, cells, _) = &property.values[0] {
                if cells.len() == 1 {
                    if let Cell::Number(number, _) = &cells[0] {
                        assert(ctx@.diagnostics + Seq::empty() =~= ctx@.diagnostics);
                        return Some(number.item);
                    }
                }
            }
        }
        ctx.add_diagnostic(
            Diagnostic::new(
                property.span(),
                property.source(),
                ErrorCode::ExpectedU32,
                "property should contain a single number",
            ),
        );
        None
    }

    /// Checks that a property holds what its name asks for.
    fn check_schema(&self, ctx: &mut FileContext<'_>, property: &Property, path: &AbsolutePath)
        ensures
            final(ctx)@ == old(ctx)@.found(schema_findings(*property, path@)),
    {
        let name = &property.name.item;
        if *name == "compatible".to_owned() {
            self.check_is_string_list(ctx, property);
        } else if *name == "model".to_owned() {
            if path.is_root() {
                self.check_is_single_string(ctx, property);
            } else {
                assert(path@.len() != 0) by {
                    if path@.len() == 0 {
                        assert(path@ =~= Seq::<NodeNameView>::empty());
                    }
                }
                assert(ctx@.diagnostics + Seq::empty() =~= ctx@.diagnostics);
            }
        } else if *name == "phandle".to_owned() {
            self.check_is_single_u32(ctx, property);
        } else {
            assert(ctx@.diagnostics + Seq::empty() =~= ctx@.diagnostics);
        }
    }

    /// Notes the label of a property, and checks its values.
    pub fn analyze_property(
        &mut self,
        ctx: &mut FileContext<'_>,
        property: Arc<Property>,
        in_node: &NodePayload,
        path: &AbsolutePath,
    )
        requires
            old(ctx)@.has_loads(values_requests(property.values@)),
        ensures
            final(self)@ == (AnalysisView {
                context: old(self)@.context.with_labels(
                    property_labels(property),
                ),
                ..old(self)@
            }),
            final(ctx)@ == old(ctx)@.met_property(*property, *in_node, path@),
    {
        let ghost labels = property_labels(property);
        if let Some(label) = &property.label {
            self.context.insert_label(&label.item, Labeled::Property(property.clone()));
            assert(labels.drop_last() =~= Seq::empty());
            assert(bind_all(old(self)@.context.labels, labels.drop_last())
                == old(self)@.context.labels);
        }
        assert(self@.context == old(self)@.context.with_labels(labels));
        self.analyze_values(ctx, &property.values, in_node);
        self.check_schema(ctx, &property, path);
        assert(ctx@.diagnostics =~= old(ctx)@.met_property(
            *property,
            *in_node,
            path@,
        ).diagnostics);
    }

    /// Checks the values of a property.
    fn analyze_values(
        &self,
        ctx: &mut FileContext<'_>,
        values: &Vec<PropertyValue>,
        in_node: &NodePayload,
    )
        requires
            old(ctx)@.has_loads(values_requests(values@)),
        ensures
            final(ctx)@ == (FileView {
                diagnostics: old(ctx)@.diagnostics + values_findings(
                    values@,
                    *in_node,
                    old(ctx)@.reports(),
                    old(ctx)@.loads,
                    old(ctx)@.next_load,
                ),
                deferred: old(ctx)@.deferred + values_deferred(values@),
                next_load: old(ctx)@.next_load + values_requests(values@).len(),
                ..old(ctx)@
            }),
    {
        let ghost start = ctx@;
        let mut i: usize = 0;
        proof {
            assert(values@.take(0) =~= Seq::empty());
            assert(start.diagnostics + Seq::empty() =~= start.diagnostics);
            assert(start.deferred + Seq::empty() =~= start.deferred);
        }
        while i < values.len()
            invariant
                i <= values@.len(),
                start == old(ctx)@,
                start.has_loads(values_requests(values@)),
                ctx@ == (FileView {
                    diagnostics: start.diagnostics + values_findings(
                        values@.take(i as int),
                        *in_node,
                        start.reports(),
                        start.loads,
                        start.next_load,
                    ),
                    deferred: start.deferred + values_deferred(values@.take(i as int)),
                    next_load: start.next_load + values_requests(values@.take(i as int)).len(),
                    ..start
                }),
            decreases values@.len() - i,
        {
            proof {
                assert(values@.take(i + 1).drop_last() =~= values@.take(i as int));
                lemma_values_requests_within(values@, i + 1);
            }
            self.analyze_property_value(ctx, &values[i], in_node);
            proof {
                let taken = values@.take(i + 1);
                assert(ctx@.diagnostics =~= start.diagnostics + values_findings(
                    taken,
                    *in_node,
                    start.reports(),
                    start.loads,
                    start.next_load,
                ));
                assert(ctx@.deferred =~= start.deferred + values_deferred(taken));
            }
            i += 1;
        }
        assert(values@.take(i as int) =~= values@);
    }

    /// Notes the labels and nodes in a payload, and checks its properties.
    fn analyze_node_payload(
        &mut self,
        ctx: &mut FileContext<'_>,
        payload: &NodePayload,
        path: &AbsolutePath,
    )
        requires
            old(ctx)@.has_loads(items_requests(payload.items@)),
        ensures
            final(self)@ == old(self)@.met_items(payload.items@, path@),
            final(ctx)@ == old(ctx)@.met_items(payload.items@, *payload, path@),
        decreases payload,
    {
        let items = &payload.items;
        let ghost start = ctx@;
        let ghost known = self@;
        let mut i: usize = 0;
        proof {
            assert(items@.take(0) =~= Seq::empty());
            assert(start.diagnostics + Seq::empty() =~= start.diagnostics);
            assert(start.deferred + Seq::empty() =~= start.deferred);
        }
        while i < items.len()
            invariant
                i <= items@.len(),
                items == payload.items,
                start == old(ctx)@,
                known == old(self)@,
                start.has_loads(items_requests(items@)),
                self@ == known.met_items(items@.take(i as int), path@),
                ctx@ == start.met_items(items@.take(i as int), *payload, path@),
            decreases items@.len() - i,
        {
            let ghost labels = items_labels(items@.take(i as int), path@);
            let ghost nodes = items_paths(items@.take(i as int), path@);
            proof {
                assert(items@.take(i + 1).drop_last() =~= items@.take(i as int));
                lemma_items_requests_within(items@, i + 1);
            }
            match &items[i] {
                NodeItem::Property(property) => {
                    self.analyze_property(ctx, property.clone(), payload, path);
                    proof {
                        lemma_bind_all_more(
                            known.context.labels,
                            labels,
                            property_labels(*property),
                        );
                        assert(items_paths(items@.take(i + 1), path@) =~= nodes);
                    }
                },
                NodeItem::Node(node) => {
                    let child_path = path.with_child(node.name.item.clone());
                    self.analyze_node(ctx, node.clone(), &child_path);
                    proof {
                        lemma_bind_all_more(
                            known.context.labels,
                            labels,
                            node_labels(*node, child_path@),
                        );
                        lemma_bind_all_more(
                            known.context.nodes,
                            nodes,
                            node_paths(*node, child_path@),
                        );
                    }
                },
                _ => {
                    proof {
                        assert(items_labels(items@.take(i + 1), path@) =~= labels);
                        assert(items_paths(items@.take(i + 1), path@) =~= nodes);
                    }
                },
            }
            proof {
                let now = start.met_items(items@.take(i + 1), *payload, path@);
                assert(ctx@.diagnostics =~= now.diagnostics);
                assert(ctx@.deferred =~= now.deferred);
                assert(ctx@.next_load == now.next_load);
            }
            i += 1;
        }
        assert(items@.take(i as int) =~= items@);
    }

    /// Notes a node at a path, with its label and all that is in it.
    pub fn analyze_node(&mut self, ctx: &mut FileContext<'_>, node: Arc<Node>, path: &AbsolutePath)
        requires
            old(ctx)@.has_loads(items_requests(node.payload.items@)),
        ensures
            final(self)@ == old(self)@.met_node(node, path@),
            final(ctx)@ == old(ctx)@.met_items(node.payload.items@, node.payload, path@),
        decreases node,
    {
        let ghost known = self@;
        let ghost labels = own_labels(node, path@);
        let ghost nodes = seq![(path@, node)];
        if let Some(label) = &node.label {
            self.context.insert_label(&label.item, Labeled::Node(node.clone(), path.clone()));
            assert(labels.drop_last() =~= Seq::empty());
            assert(bind_all(known.context.labels, labels.drop_last()) == known.context.labels);
        }
        self.context.insert_node(path, node.clone());
        proof {
            assert(nodes.drop_last() =~= Seq::empty());
            assert(bind_all(known.context.nodes, nodes.drop_last()) == known.context.nodes);
            assert(self@.context == known.context.with_labels(labels).with_nodes(nodes));
            lemma_bind_all_more(
                known.context.labels,
                labels,
                items_labels(node.payload.items@, path@),
            );
            lemma_bind_all_more(
                known.context.nodes,
                nodes,
                items_paths(node.payload.items@, path@),
            );
        }
        self.analyze_node_payload(ctx, &node.payload, path);
    }
}

/// The first values name no more files than all of them.
proof fn lemma_values_requests_within(values: Seq<PropertyValue>, taken: int)
    requires
        0 <= taken <= values.len(),
    ensures
        values_requests(values.take(taken)).len() <= values_requests(values).len(),
    decreases values.len(),
{
    if taken < values.len() {
        assert(values.drop_last().take(taken) =~= values.take(taken));
        lemma_values_requests_within(values.drop_last(), taken);
    } else {
        assert(values.take(taken) =~= values);
    }
}

/// The first items name no more files than all of them.
proof fn lemma_items_requests_within(items: Seq<NodeItem>, taken: int)
    requires
        0 <= taken <= items.len(),
    ensures
        items_requests(items.take(taken)).len() <= items_requests(items).len(),
    decreases items.len(),
{
    if taken < items.len() {
        assert(items.drop_last().take(taken) =~= items.take(taken));
        lemma_items_requests_within(items.drop_last(), taken);
    } else {
        assert(items.take(taken) =~= items);
    }
}

/// The analysis of a file, on the way: what is known, and what was found in the
/// file.
pub struct Progress {
    pub known: AnalysisView,
    pub file: FileView,
}

/// The finding that an included file has errors.
pub open spec fn errors_in_inclusion(inclusion: Include) -> DiagnosticView {
    DiagnosticView {
        span: inclusion.spec_span(),
        source: inclusion.spec_source(),
        kind: ErrorCode::ErrorsInInclude,
        message: "Included file contains errors"@,
    }
}

/// The finding that a directive stands where it should not.
pub open spec fn directive_finding(
    token: Token,
    kind: ErrorCode,
    message: Seq<char>,
) -> DiagnosticView {
    DiagnosticView { span: token.span, source: token.source, kind, message }
}

impl Progress {
    /// After a directive that includes a file. It is reported if the file could not
    /// be found, if it closes a circle of imports, or if it has errors.
    pub open spec fn after_inclusion(self, inclusion: Include) -> Progress {
        let file = FileView { next_load: self.file.next_load + 1, ..self.file };
        let span = inclusion.spec_span();
        let source = inclusion.spec_source();
        match self.file.loads[self.file.next_load] {
            Err(err) => Progress {
                file: file.found(seq![io_error_view(span, source, err.message@)]),
                ..self
            },
            Ok(loaded) => {
                let importers = seq![file.source];
                if closes_circle(self.known.imports, loaded.path, importers) {
                    Progress {
                        file: file.found(seq![cyclic_dependency_view(span, source)]),
                        ..self
                    }
                } else {
                    Progress {
                        known: AnalysisView {
                            imports: self.known.imports.union(
                                import_edges(loaded.path, importers),
                            ),
                            ..self.known
                        },
                        file: file.found(
                            if file.project.is_faulty(loaded.canonical) {
                                seq![errors_in_inclusion(inclusion)]
                            } else {
                                Seq::empty()
                            },
                        ),
                    }
                }
            },
        }
    }

    /// After the directive that says the version of the format. It is reported if it
    /// stands there twice, or behind something other than an inclusion.
    pub open spec fn after_header(self, token: Token) -> Progress {
        let findings = if self.file.dts_header_seen {
            seq![
                directive_finding(
                    token,
                    ErrorCode::DuplicateDirective,
                    "Duplicate dts-v1 version header"@,
                ),
            ]
        } else if self.file.first_non_include {
            seq![
                directive_finding(
                    token,
                    ErrorCode::MisplacedDtsHeader,
                    "dts-v1 header must be placed on top of the file"@,
                ),
            ]
        } else {
            Seq::empty()
        };
        Progress { file: FileView { dts_header_seen: true, ..self.file.found(findings) }, ..self }
    }

    /// With the finding, if it is reported, that a reference in the outermost part of
    /// the file leads nowhere.
    pub open spec fn after_reference(self, reference: PlacedReference) -> Progress {
        Progress {
            file: self.file.found(
                if self.file.reports() && self.known.context.referenced_path(
                    reference.reference,
                ) is None {
                    seq![reference.unresolved()]
                } else {
                    Seq::empty()
                },
            ),
            ..self
        }
    }

    /// After a node that is given by a reference. What is in it stands at the path that
    /// the reference leads to, or at the root if it leads nowhere.
    pub open spec fn after_referenced_node(self, node: Arc<ReferencedNode>) -> Progress {
        let known = AnalysisView {
            context: self.known.context.with_labels(referenced_labels(node)),
            ..self.known
        };
        let path = match known.context.referenced_path(node.reference@.reference) {
            Some(path) => path,
            None => Seq::empty(),
        };
        let found = (Progress { known, ..self }).after_reference(node.reference@);
        Progress {
            known: known.met_items(node.payload.items@, path),
            file: found.file.met_items(node.payload.items@, node.payload, path),
        }
    }

    /// Once something other than an inclusion has been met.
    pub open spec fn in_body(self) -> Progress {
        Progress { file: FileView { first_non_include: true, ..self.file }, ..self }
    }

    /// After an element of the file.
    #[verifier::opaque]
    pub open spec fn after_primary(self, primary: Primary) -> Progress {
        match primary {
            Primary::Directive(AnyDirective::DtsHeader(token)) => self.after_header(token),
            Primary::Directive(AnyDirective::Memreserve(_)) => self.in_body(),
            Primary::Directive(AnyDirective::Include(inclusion)) => self.after_inclusion(
                inclusion,
            ),
            Primary::Directive(AnyDirective::Plugin(_)) => Progress {
                file: FileView { is_plugin: true, ..self.file },
                ..self
            }.in_body(),
            Primary::Directive(AnyDirective::OmitIfNoRef(_, _)) => self.in_body(),
            Primary::Directive(AnyDirective::DeletedNode(_, reference)) => self.after_reference(
                reference@,
            ),
            Primary::Root(node) => Progress {
                known: self.known.met_node(node, Seq::empty()),
                file: self.file.met_items(node.payload.items@, node.payload, Seq::empty()),
            }.in_body(),
            Primary::ReferencedNode(node) => self.after_referenced_node(node).in_body(),
            Primary::CStyleInclude(_) => self,
        }
    }

    /// After elements of the file.
    pub open spec fn after_primaries(self, primaries: Seq<Primary>) -> Progress
        decreases primaries.len(),
    {
        if primaries.len() == 0 {
            self
        } else {
            self.after_primaries(primaries.drop_last()).after_primary(primaries.last())
        }
    }

    /// What was found in the file, once all of its elements have been met.
    pub open spec fn findings(self) -> Seq<DiagnosticView> {
        let header = if !self.file.dts_header_seen && self.file.file_type == FileType::DtSource {
            seq![no_header_finding(self.file.source)]
        } else {
            Seq::empty()
        };
        self.file.diagnostics + header + deferred_findings(
            self.file.deferred,
            self.known.context,
            self.file.reports(),
        )
    }
}

/// The finding that a file does not say the version of the format.
pub open spec fn no_header_finding(source: FileId) -> DiagnosticView {
    let start = Position { line: 0, character: 0 };
    DiagnosticView {
        span: Span { start, end: start },
        source,
        kind: ErrorCode::NonDtsV1,
        message: "Files without the '/dts-v1/' Header are not supported"@,
    }
}

/// The analysis of a file at its start.
pub open spec fn file_start(
    known: AnalysisView,
    source: FileId,
    file_type: FileType,
    project: ProjectView,
    loads: Seq<LoadOutcome>,
) -> Progress {
    Progress {
        known,
        file: FileView {
            source,
            project,
            loads,
            next_load: 0,
            diagnostics: Seq::empty(),
            deferred: Seq::empty(),
            file_type,
            is_plugin: file_type == FileType::DtSourceOverlay,
            first_non_include: false,
            dts_header_seen: false,
        },
    }
}

/// The analysis of a file at its end.
pub open spec fn file_end(
    known: AnalysisView,
    file: DtsFile,
    file_type: FileType,
    project: ProjectView,
    loads: Seq<LoadOutcome>,
) -> Progress {
    file_start(known, file.source, file_type, project, loads).after_primaries(file.elements@)
}

/// Elements change nothing of what the analysis of a file is about, and each file
/// that they name uses up what came of one search.
proof fn lemma_file_stays(start: Progress, primaries: Seq<Primary>)
    ensures
        start.after_primaries(primaries).file.next_load == start.file.next_load
            + primaries_requests(primaries).len(),
        start.after_primaries(primaries).file.loads == start.file.loads,
        start.after_primaries(primaries).file.source == start.file.source,
        start.after_primaries(primaries).file.project == start.file.project,
        start.after_primaries(primaries).file.file_type == start.file.file_type,
    decreases primaries.len(),
{
    if primaries.len() > 0 {
        lemma_file_stays(start, primaries.drop_last());
        reveal(Progress::after_primary);
    }
}

/// The first elements name no more files than all of them.
proof fn lemma_primaries_requests_within(primaries: Seq<Primary>, taken: int)
    requires
        0 <= taken <= primaries.len(),
    ensures
        primaries_requests(primaries.take(taken)).len() <= primaries_requests(primaries).len(),
    decreases primaries.len(),
{
    if taken < primaries.len() {
        assert(primaries.drop_last().take(taken) =~= primaries.take(taken));
        lemma_primaries_requests_within(primaries.drop_last(), taken);
    } else {
        assert(primaries.take(taken) =~= primaries);
    }
}

impl Analysis {
    /// Notes that the file includes another, and reports what is wrong with that.
    fn analyze_include(&mut self, ctx: &mut FileContext<'_>, inclusion: &Include)
        requires
            old(ctx)@.has_loads(seq![inclusion.file_name.item@]),
        ensures
            (Progress { known: final(self)@, file: final(ctx)@ }) == (Progress {
                known: old(self)@,
                file: old(ctx)@,
            }).after_inclusion(*inclusion),
            acyclic(old(self)@.imports) ==> acyclic(final(self)@.imports),
    {
        let span = inclusion.span();
        let source = inclusion.source();
        let loads = ctx.loads;
        let at = ctx.next_load;
        let count = loads.len();
        assert(at < count);
        ctx.next_load += 1;
        match &loads[at] {
            Err(err) => {
                ctx.add_diagnostic(Diagnostic::io_error(span, source, err));
            },
            Ok(loaded) => {
                let importers = [ctx.source];
                assert(importers@ =~= seq![ctx.source]);
                match self.import_guard.add(loaded.path, importers.as_slice()) {
                    Err(err) => {
                        ctx.add_diagnostic(Diagnostic::cyclic_dependency_error(span, source, err));
                    },
                    Ok(_) => {
                        if ctx.project.is_faulty(loaded.canonical) {
                            ctx.add_diagnostic(
                                Diagnostic::new(
                                    span,
                                    source,
                                    ErrorCode::ErrorsInInclude,
                                    "Included file contains errors",
                                ),
                            );
                        } else {
                            assert(ctx@.diagnostics + Seq::empty() =~= ctx@.diagnostics);
                        }
                    },
                }
            },
        }
    }

    /// Notes a node that is given by a reference, with its label and all that is in it.
    pub fn analyze_referenced_node(
        &mut self,
        ctx: &mut FileContext<'_>,
        node: Arc<ReferencedNode>,
    )
        requires
            old(ctx)@.has_loads(items_requests(node.payload.items@)),
        ensures
            (Progress { known: final(self)@, file: final(ctx)@ }) == (Progress {
                known: old(self)@,
                file: old(ctx)@,
            }).after_referenced_node(node),
    {
        let ghost known = self@;
        let ghost labels = referenced_labels(node);
        if let Some(label) = &node.label {
            self.context.insert_label(&label.item, Labeled::ReferencedNode(node.clone()));
            assert(labels.drop_last() =~= Seq::empty());
            assert(bind_all(known.context.labels, labels.drop_last()) == known.context.labels);
        }
        assert(self@.context == known.context.with_labels(labels));
        let path = match self.get_absolute_path_from_reference_in_root_ctx(ctx, &node.reference) {
            Some(path) => path,
            None => AbsolutePath::root(),
        };
        self.analyze_node_payload(ctx, &node.payload, &path);
    }

    /// Reports the references that were left for later and lead nowhere.
    pub fn resolve_references(&self, ctx: &mut FileContext<'_>)
        ensures
            final(ctx)@ == old(ctx)@.found(
                deferred_findings(old(ctx)@.deferred, self@.context, old(ctx)@.reports()),
            ),
    {
        let ghost start = ctx@;
        let ghost references = ctx@.deferred;
        let mut i: usize = 0;
        proof {
            assert(references.take(0) =~= Seq::empty());
            assert(start.diagnostics + Seq::empty() =~= start.diagnostics);
        }
        while i < ctx.references_to_be_checked.len()
            invariant
                i <= references.len(),
                start == old(ctx)@,
                references == start.deferred,
                ctx@ == start.found(
                    deferred_findings(
                        references.take(i as int),
                        self@.context,
                        start.reports(),
                    ),
                ),
            decreases references.len() - i,
        {
            assert(references.take(i + 1).drop_last() =~= references.take(i as int));
            let reference = &ctx.references_to_be_checked[i];
            assert(reference@ == references[i as int]);
            let span = reference.span();
            let source = reference.source();
            let ok = match &reference.item {
                Reference::Label(label) => self.context.labeled(label).is_some(),
                Reference::Path(path) => {
                    self.get_absolute_path_from_path_in_root_ctx(path).is_some()
                },
                Reference::PropertyPath(path) => {
                    self.get_absolute_path_from_property_path_in_root_ctx(path).is_some()
                },
            };
            if !ok {
                ctx.unresolved_reference_error(span, source);
            }
            assert(ctx@.diagnostics =~= start.found(
                deferred_findings(references.take(i + 1), self@.context, start.reports()),
            ).diagnostics);
            i += 1;
        }
        assert(references.take(i as int) =~= references);
    }

    /// Analyzes an element of a file.
    fn analyze_primary(&mut self, ctx: &mut FileContext<'_>, primary: &Primary)
        requires
            old(ctx)@.has_loads(primary_requests(*primary)),
        ensures
            (Progress { known: final(self)@, file: final(ctx)@ }) == (Progress {
                known: old(self)@,
                file: old(ctx)@,
            }).after_primary(*primary),
            acyclic(old(self)@.imports) ==> acyclic(final(self)@.imports),
    {
        proof {
            reveal(Progress::after_primary);
        }
        match primary {
            Primary::Directive(directive) => match directive {
                AnyDirective::DtsHeader(token) => {
                    if ctx.dts_header_seen {
                        ctx.add_diagnostic(
                            Diagnostic::from_token(
                                *token,
                                ErrorCode::DuplicateDirective,
                                "Duplicate dts-v1 version header",
                            ),
                        );
                    } else if ctx.first_non_include {
                        ctx.add_diagnostic(
                            Diagnostic::from_token(
                                *token,
                                ErrorCode::MisplacedDtsHeader,
                                "dts-v1 header must be placed on top of the file",
                            ),
                        );
                    } else {
                        assert(ctx@.diagnostics + Seq::empty() =~= ctx@.diagnostics);
                    }
                    ctx.dts_header_seen = true;
                },
                AnyDirective::Memreserve(_) => {
                    ctx.first_non_include = true;
                },
                AnyDirective::Include(inclusion) => {
                    self.analyze_include(ctx, inclusion);
                },
                AnyDirective::Plugin(_) => {
                    ctx.first_non_include = true;
                    ctx.is_plugin = true;
                },
                AnyDirective::OmitIfNoRef(_, _) => {
                    ctx.first_non_include = true;
                },
                AnyDirective::DeletedNode(_, reference) => {
                    self.get_absolute_path_from_reference_in_root_ctx(ctx, reference);
                },
            },
            Primary::Root(root_node) => {
                self.analyze_node(ctx, root_node.clone(), &AbsolutePath::root());
                ctx.first_non_include = true;
            },
            Primary::ReferencedNode(referenced_node) => {
                self.analyze_referenced_node(ctx, referenced_node.clone());
                ctx.first_non_include = true;
            },
            Primary::CStyleInclude(_) => {},
        }
    }

    /// Analyzes a file. `loads` says what came of the search for each file that is
    /// named in this one, in the order in which they are named.
    pub fn analyze_file(
        &mut self,
        file: &DtsFile,
        file_type: FileType,
        project: &Project,
        loads: &[LoadOutcome],
    ) -> (r: AnalysisResult)
        requires
            loads@.len() >= primaries_requests(file.elements@).len(),
        ensures
            final(self)@ == file_end(old(self)@, *file, file_type, project@, loads@).known,
            diagnostics_view(r.diagnostics@) == file_end(
                old(self)@,
                *file,
                file_type,
                project@,
                loads@,
            ).findings(),
            acyclic(old(self)@.imports) ==> acyclic(final(self)@.imports),
    {
        let mut ctx = FileContext {
            source: file.source,
            project,
            loads,
            next_load: 0,
            diagnostics: Vec::new(),
            references_to_be_checked: Vec::new(),
            file_type,
            is_plugin: file_type == FileType::DtSourceOverlay,
            first_non_include: false,
            dts_header_seen: false,
        };
        let primaries = &file.elements;
        let ghost start = file_start(self@, file.source, file_type, project@, loads@);
        proof {
            assert(ctx@.diagnostics =~= Seq::empty());
            assert(ctx@.deferred =~= Seq::empty());
            assert(primaries@.take(0) =~= Seq::empty());
        }
        let mut i: usize = 0;
        while i < primaries.len()
            invariant
                i <= primaries@.len(),
                primaries == file.elements,
                start == file_start(old(self)@, file.source, file_type, project@, loads@),
                loads@.len() >= primaries_requests(primaries@).len(),
                (Progress { known: self@, file: ctx@ }) == start.after_primaries(
                    primaries@.take(i as int),
                ),
                acyclic(old(self)@.imports) ==> acyclic(self@.imports),
            decreases primaries@.len() - i,
        {
            proof {
                assert(primaries@.take(i + 1).drop_last() =~= primaries@.take(i as int));
                lemma_file_stays(start, primaries@.take(i as int));
                lemma_primaries_requests_within(primaries@, i + 1);
            }
            self.analyze_primary(&mut ctx, &primaries[i]);
            i += 1;
        }
        proof {
            assert(primaries@.take(i as int) =~= primaries@);
            lemma_file_stays(start, primaries@);
        }
        if !ctx.dts_header_seen && ctx.file_type == FileType::DtSource {
            ctx.add_diagnostic(
                Diagnostic::new(
                    Position::zero().as_span(),
                    file.source(),
                    ErrorCode::NonDtsV1,
                    "Files without the '/dts-v1/' Header are not supported",
                ),
            );
        } else {
            assert(ctx@.diagnostics + Seq::empty() =~= ctx@.diagnostics);
        }
        self.resolve_references(&mut ctx);
        ctx.into_result()
    }
}

} // verus!
