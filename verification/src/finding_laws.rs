//! What an analysis of a file reports, and what it does not.
use crate::analysis::{
    deferred_findings, file_start, Analysis, AnalysisResult, AnalysisView, Progress,
};
use crate::ast::{
    AnyDirective, DtsFile, Include, NodeItem, NodeNameView, NodePayload, Primary, Property,
    PropertyValue, Reference, WithToken,
};
use crate::context::{ContextView, LabeledView};
use crate::data::{FileId, FileType, Position, Span, Token};
use crate::diagnostics::{diagnostics_view, DiagnosticView};
use crate::error_codes::{ErrorCode, Severity};
use crate::graph::{reaches, walk_between, Edges};
use crate::import_guard::{closes_circle, import_edges};
use crate::loader::LoadOutcome;
use crate::place_laws::{
    lemma_in_both, lemma_local_found, lemma_property_findings, lemma_property_says,
    lemma_reference_deferred,
    lemma_reference_in, lemma_some_local_found, lemma_some_property_findings,
    lemma_some_reference_deferred, lemma_some_reference_in, lemma_some_value_findings,
    lemma_value_findings, named_before, path_at, payload_at, payload_of, property_at, reference_at,
    reference_in, ReferencePlace,
};
use crate::project::{Project, ProjectView};
use crate::search_laws::{
    leads_from_node, leads_from_root, lemma_where_references_lead, starts_at_node,
    target_from_root,
};
use crate::tree::{
    bind_all, items_deferred, items_findings, items_requests, local_findings, non_string_findings,
    primaries_requests,
    primary_requests, property_findings, referenced_labels, schema_findings, value_findings,
    value_references, values_findings, values_requests, PlacedReference,
};
use std::sync::Arc;
use vstd::prelude::*;

verus! {

/// What stands between the braces of the node that an element of a file is.
pub open spec fn body_of(primary: Primary) -> Option<NodePayload> {
    match primary {
        Primary::Root(node) => Some(node.payload),
        Primary::ReferencedNode(node) => Some(node.payload),
        _ => None,
    }
}

/// The reference in the outermost part of a file that an element stands for.
pub open spec fn outer_reference(primary: Primary) -> Option<WithToken<Reference>> {
    match primary {
        Primary::ReferencedNode(node) => Some(node.reference),
        Primary::Directive(AnyDirective::DeletedNode(_, reference)) => Some(reference),
        _ => None,
    }
}

/// The finding that a reference leads nowhere.
pub open spec fn dead(reference: WithToken<Reference>) -> DiagnosticView {
    DiagnosticView {
        span: reference.token.span,
        source: reference.token.source,
        kind: ErrorCode::UnresolvedReference,
        message: "Reference cannot be resolved"@,
    }
}

/// Whether one of the elements of a file says that it is a plugin.
pub open spec fn has_plugin(primaries: Seq<Primary>) -> bool {
    exists|i: int|
        0 <= i < primaries.len() && (#[trigger] primaries[i]) matches Primary::Directive(
            AnyDirective::Plugin(_),
        )
}

/// What an element adds to the findings about a file.
pub open spec fn said_of(before: Progress, primary: Primary) -> Seq<DiagnosticView> {
    before.after_primary(primary).file.diagnostics.skip(before.file.diagnostics.len() as int)
}

/// Where what is in the node of an element stands.
pub open spec fn body_path(before: Progress, primary: Primary) -> Seq<NodeNameView> {
    match primary {
        Primary::ReferencedNode(node) => match target_from_root(
            before.known.context.with_labels(referenced_labels(node)),
            node.reference.item,
        ) {
            Some(path) => path,
            None => Seq::empty(),
        },
        _ => Seq::empty(),
    }
}

/// What an element of a file adds.
pub(crate) proof fn lemma_step(before: Progress, primary: Primary)
    ensures
        ({
            let after = before.after_primary(primary);
            &&& after.file.diagnostics == before.file.diagnostics + said_of(before, primary)
            &&& after.file.deferred == before.file.deferred + match body_of(primary) {
                Some(body) => items_deferred(body.items@),
                None => Seq::empty(),
            }
            &&& after.file.is_plugin == (before.file.is_plugin
                || primary matches Primary::Directive(AnyDirective::Plugin(_)))
            &&& after.file.file_type == before.file.file_type
            &&& after.file.loads == before.file.loads
            &&& after.file.source == before.file.source
            &&& after.file.project == before.file.project
            &&& after.file.next_load == before.file.next_load + primary_requests(primary).len()
            &&& body_of(primary) matches Some(body) ==> {
                let findings = items_findings(
                    body.items@,
                    body,
                    body_path(before, primary),
                    before.file.reports(),
                    before.file.loads,
                    before.file.next_load,
                );
                match primary {
                    Primary::ReferencedNode(node) => said_of(before, primary) == (if
                        before.file.reports() && target_from_root(
                        before.known.context.with_labels(referenced_labels(node)),
                        node.reference.item,
                    ) is None {
                        seq![dead(node.reference)]
                    } else {
                        Seq::empty()
                    }) + findings,
                    _ => said_of(before, primary) == findings,
                }
            }
            &&& primary matches Primary::Directive(AnyDirective::DeletedNode(_, reference))
                ==> said_of(before, primary) == if before.file.reports() && target_from_root(
                before.known.context,
                reference.item,
            ) is None {
                seq![dead(reference)]
            } else {
                Seq::empty()
            }
        }),
{
    reveal(Progress::after_primary);
    let after = before.after_primary(primary);
    let old_len = before.file.diagnostics.len() as int;
    match primary {
        Primary::ReferencedNode(node) => {
            let known = before.known.context.with_labels(referenced_labels(node));
            lemma_where_references_lead(known, body_of(primary)->0, outer_reference(primary)->0);
            assert(after.file.diagnostics =~= before.file.diagnostics + said_of(before, primary));
            assert(said_of(before, primary) =~= (if before.file.reports() && target_from_root(
                known,
                node.reference.item,
            ) is None {
                seq![dead(node.reference)]
            } else {
                Seq::empty()
            }) + items_findings(
                node.payload.items@,
                node.payload,
                body_path(before, primary),
                before.file.reports(),
                before.file.loads,
                before.file.next_load,
            ));
        },
        Primary::Directive(AnyDirective::DeletedNode(_, reference)) => {
            lemma_where_references_lead(before.known.context, arbitrary(), reference);
            assert(after.file.diagnostics =~= before.file.diagnostics + said_of(before, primary));
            assert(said_of(before, primary) =~= if before.file.reports() && target_from_root(
                before.known.context,
                reference.item,
            ) is None {
                seq![dead(reference)]
            } else {
                Seq::empty()
            });
        },
        Primary::Root(node) => {
            assert(after.file.diagnostics =~= before.file.diagnostics + said_of(before, primary));
            assert(said_of(before, primary) =~= items_findings(
                node.payload.items@,
                node.payload,
                Seq::empty(),
                before.file.reports(),
                before.file.loads,
                before.file.next_load,
            ));
        },
        _ => {
            assert(after.file.diagnostics =~= before.file.diagnostics + said_of(before, primary));
        },
    }
    assert(after.file.deferred =~= before.file.deferred + match body_of(primary) {
        Some(body) => items_deferred(body.items@),
        None => Seq::empty(),
    });
}

/// The analysis of a file, after some of its elements.
pub open spec fn after_some(start: Progress, primaries: Seq<Primary>, count: int) -> Progress {
    start.after_primaries(primaries.take(count))
}

/// What stays of the analysis of a file on the way.
pub(crate) proof fn lemma_on_the_way(start: Progress, primaries: Seq<Primary>)
    ensures
        ({
            let end = start.after_primaries(primaries);
            &&& end.file.is_plugin == (start.file.is_plugin || has_plugin(primaries))
            &&& end.file.file_type == start.file.file_type
            &&& end.file.loads == start.file.loads
            &&& end.file.source == start.file.source
            &&& end.file.project == start.file.project
            &&& end.file.next_load == start.file.next_load + primaries_requests(primaries).len()
        }),
    decreases primaries.len(),
{
    if primaries.len() > 0 {
        let fewer = primaries.drop_last();
        lemma_on_the_way(start, fewer);
        lemma_step(start.after_primaries(fewer), primaries.last());
        if has_plugin(fewer) {
            let i = choose|i: int|
                0 <= i < fewer.len() && (#[trigger] fewer[i]) matches Primary::Directive(
                    AnyDirective::Plugin(_),
                );
            assert(primaries[i] == fewer[i]);
        }
        if has_plugin(primaries) {
            let i = choose|i: int|
                0 <= i < primaries.len() && (#[trigger] primaries[i]) matches Primary::Directive(
                    AnyDirective::Plugin(_),
                );
            if i < fewer.len() {
                assert(primaries[i] == fewer[i]);
            }
        }
        assert(primaries.last() == primaries[primaries.len() - 1]);
    }
}

/// What an element adds to the findings is found in the end.
pub(crate) proof fn lemma_said_in_the_end(
    start: Progress,
    primaries: Seq<Primary>,
    k: int,
    finding: DiagnosticView,
)
    requires
        0 <= k < primaries.len(),
        said_of(after_some(start, primaries, k), primaries[k]).contains(finding),
    ensures
        start.after_primaries(primaries).file.diagnostics.contains(finding),
    decreases primaries.len(),
{
    let fewer = primaries.drop_last();
    let before = start.after_primaries(fewer);
    lemma_step(before, primaries.last());
    lemma_in_both(before.file.diagnostics, said_of(before, primaries.last()), finding);
    if k < fewer.len() {
        assert(fewer.take(k) =~= primaries.take(k));
        lemma_said_in_the_end(start, fewer, k, finding);
    } else {
        assert(primaries.take(k) =~= fewer);
    }
}

/// What is found in the end was added by one of the elements.
pub(crate) proof fn lemma_some_element_said(
    start: Progress,
    primaries: Seq<Primary>,
    finding: DiagnosticView,
) -> (k: int)
    requires
        start.file.diagnostics.len() == 0,
        start.after_primaries(primaries).file.diagnostics.contains(finding),
    ensures
        0 <= k < primaries.len(),
        said_of(after_some(start, primaries, k), primaries[k]).contains(finding),
    decreases primaries.len(),
{
    if primaries.len() == 0 {
        0
    } else {
        let fewer = primaries.drop_last();
        let before = start.after_primaries(fewer);
        lemma_step(before, primaries.last());
        lemma_in_both(before.file.diagnostics, said_of(before, primaries.last()), finding);
        if before.file.diagnostics.contains(finding) {
            let k = lemma_some_element_said(start, fewer, finding);
            assert(fewer.take(k) =~= primaries.take(k));
            k
        } else {
            assert(primaries.take(primaries.len() - 1) =~= fewer);
            primaries.len() - 1
        }
    }
}

/// What an element leaves for later is left in the end.
proof fn lemma_deferred_in_the_end(
    start: Progress,
    primaries: Seq<Primary>,
    k: int,
    reference: PlacedReference,
)
    requires
        0 <= k < primaries.len(),
        body_of(primaries[k]) matches Some(body) && items_deferred(body.items@).contains(reference),
    ensures
        start.after_primaries(primaries).file.deferred.contains(reference),
    decreases primaries.len(),
{
    let fewer = primaries.drop_last();
    let before = start.after_primaries(fewer);
    let more = match body_of(primaries.last()) {
        Some(body) => items_deferred(body.items@),
        None => Seq::empty(),
    };
    lemma_step(before, primaries.last());
    lemma_in_both(before.file.deferred, more, reference);
    if k < fewer.len() {
        lemma_deferred_in_the_end(start, fewer, k, reference);
    }
}

/// What is left for later in the end was left by one of the elements.
proof fn lemma_some_element_deferred(
    start: Progress,
    primaries: Seq<Primary>,
    reference: PlacedReference,
) -> (k: int)
    requires
        start.file.deferred.len() == 0,
        start.after_primaries(primaries).file.deferred.contains(reference),
    ensures
        0 <= k < primaries.len(),
        body_of(primaries[k]) matches Some(body) && items_deferred(body.items@).contains(reference),
    decreases primaries.len(),
{
    if primaries.len() == 0 {
        0
    } else {
        let fewer = primaries.drop_last();
        let before = start.after_primaries(fewer);
        let more = match body_of(primaries.last()) {
            Some(body) => items_deferred(body.items@),
            None => Seq::empty(),
        };
        lemma_step(before, primaries.last());
        lemma_in_both(before.file.deferred, more, reference);
        if before.file.deferred.contains(reference) {
            lemma_some_element_deferred(start, fewer, reference)
        } else {
            primaries.len() - 1
        }
    }
}

proof fn lemma_deferred_found(
    references: Seq<PlacedReference>,
    context: ContextView,
    reference: PlacedReference,
)
    requires
        references.contains(reference),
        !context.resolves(reference.reference),
    ensures
        deferred_findings(references, context, true).contains(reference.unresolved()),
    decreases references.len(),
{
    if references.len() > 0 {
        let fewer = references.drop_last();
        let last = references.last();
        let more = if !context.resolves(last.reference) {
            seq![last.unresolved()]
        } else {
            Seq::empty()
        };
        assert(fewer + seq![last] =~= references);
        lemma_in_both(fewer, seq![last], reference);
        lemma_in_both(
            deferred_findings(fewer, context, true),
            more,
            reference.unresolved(),
        );
        if fewer.contains(reference) {
            lemma_deferred_found(fewer, context, reference);
        } else {
            assert(more[0] == reference.unresolved());
        }
    }
}

proof fn lemma_some_deferred_found(
    references: Seq<PlacedReference>,
    context: ContextView,
    reports: bool,
    finding: DiagnosticView,
) -> (reference: PlacedReference)
    requires
        deferred_findings(references, context, reports).contains(finding),
    ensures
        references.contains(reference),
        reports,
        !context.resolves(reference.reference),
        finding == reference.unresolved(),
    decreases references.len(),
{
    if references.len() == 0 {
        arbitrary()
    } else {
        let fewer = references.drop_last();
        let last = references.last();
        let more = if reports && !context.resolves(last.reference) {
            seq![last.unresolved()]
        } else {
            Seq::empty()
        };
        assert(fewer + seq![last] =~= references);
        lemma_in_both(deferred_findings(fewer, context, reports), more, finding);
        if deferred_findings(fewer, context, reports).contains(finding) {
            let reference = lemma_some_deferred_found(fewer, context, reports, finding);
            lemma_in_both(fewer, seq![last], reference);
            reference
        } else {
            assert(seq![last][0] == last);
            lemma_in_both(fewer, seq![last], last);
            last
        }
    }
}

/// The findings about a file are those that its elements add, the missing version of the
/// format, and those about references that were left for later.
proof fn lemma_end(end: Progress, finding: DiagnosticView)
    ensures
        end.findings().contains(finding) == (end.file.diagnostics.contains(finding) || (
        !end.file.dts_header_seen && end.file.file_type == FileType::DtSource && finding
            == crate::analysis::no_header_finding(end.file.source)) || deferred_findings(
            end.file.deferred,
            end.known.context,
            end.file.reports(),
        ).contains(finding)),
{
    let header = if !end.file.dts_header_seen && end.file.file_type == FileType::DtSource {
        seq![crate::analysis::no_header_finding(end.file.source)]
    } else {
        Seq::empty()
    };
    let late = deferred_findings(end.file.deferred, end.known.context, end.file.reports());
    lemma_in_both(end.file.diagnostics + header, late, finding);
    lemma_in_both(end.file.diagnostics, header, finding);
    if header.len() > 0 {
        assert(header[0] == crate::analysis::no_header_finding(end.file.source));
    }
}

/// In a source file that is no plugin, each reference that is written anywhere in a node,
/// as a value or in any of the cells of a value, and leads nowhere is reported where it
/// stands. Whether one that starts at the node in which it is written leads somewhere is
/// seen there, whether another one does is seen once the whole file is known.
pub proof fn lemma_dead_reference_is_reported(
    analysis: &mut Analysis,
    file: &DtsFile,
    file_type: FileType,
    project: &Project,
    loads: &[LoadOutcome],
    r: AnalysisResult,
    k: int,
    at: ReferencePlace,
)
    requires
        call_ensures(Analysis::analyze_file, (analysis, file, file_type, project, loads), r),
        file_type == FileType::DtSource,
        0 <= k < file.elements@.len(),
        body_of(file.elements@[k]) is Some,
        reference_at(body_of(file.elements@[k])->0, at) is Some,
    ensures
        ({
            let body = body_of(file.elements@[k])->0;
            let reference = reference_at(body, at)->0;
            let found = diagnostics_view(r.diagnostics@).contains(dead(reference));
            &&& !starts_at_node(reference.item) && !has_plugin(file.elements@)
                && !leads_from_root(final(analysis)@.context, reference.item) ==> found
            &&& starts_at_node(reference.item) && !has_plugin(file.elements@.take(k))
                && !leads_from_node(payload_at(body, at.places)->0, reference.item) ==> found
        }),
{
    lemma_dead_inside(old(analysis)@, file, file_type, project@, loads@, k, at);
}

proof fn lemma_dead_inside(
    known: AnalysisView,
    file: &DtsFile,
    file_type: FileType,
    project: ProjectView,
    loads: Seq<LoadOutcome>,
    k: int,
    at: ReferencePlace,
)
    requires
        file_type == FileType::DtSource,
        0 <= k < file.elements@.len(),
        body_of(file.elements@[k]) is Some,
        reference_at(body_of(file.elements@[k])->0, at) is Some,
    ensures
        ({
            let end = file_start(known, file.source, file_type, project, loads).after_primaries(
                file.elements@,
            );
            let body = body_of(file.elements@[k])->0;
            let reference = reference_at(body, at)->0;
            let found = end.findings().contains(dead(reference));
            &&& !starts_at_node(reference.item) && !has_plugin(file.elements@)
                && !leads_from_root(end.known.context, reference.item) ==> found
            &&& starts_at_node(reference.item) && !has_plugin(file.elements@.take(k))
                && !leads_from_node(payload_at(body, at.places)->0, reference.item) ==> found
        }),
{
    let start = file_start(known, file.source, file_type, project, loads);
    let end = start.after_primaries(file.elements@);
    let before = after_some(start, file.elements@, k);
    let body = body_of(file.elements@[k])->0;
    let inner = payload_at(body, at.places)->0;
    let property = property_at(body, at.places, at.i)->0;
    let reference = reference_at(body, at)->0;
    lemma_on_the_way(start, file.elements@);
    lemma_on_the_way(start, file.elements@.take(k));
    lemma_end(end, dead(reference));
    lemma_where_references_lead(end.known.context, inner, reference);
    if starts_at_node(reference.item) {
        if !has_plugin(file.elements@.take(k)) && !leads_from_node(inner, reference.item) {
            let value = property.values@[at.j];
            let path = path_at(body_path(before, file.elements@[k]), body, at.places);
            let count = named_before(before.file.next_load, body, at.places) + items_requests(
                inner.items@.take(at.i),
            ).len();
            lemma_reference_in(value, at.cell);
            lemma_local_found(value_references(value), inner, reference@);
            lemma_value_findings(
                property.values@,
                inner,
                true,
                loads,
                count,
                at.j,
                dead(reference),
            );
            lemma_property_says(property, inner, path, true, loads, count, dead(reference));
            lemma_property_findings(
                body,
                at.places,
                at.i,
                body_path(before, file.elements@[k]),
                true,
                loads,
                before.file.next_load,
                dead(reference),
            );
            lemma_element_says_of_body(before, file.elements@[k], dead(reference));
            lemma_said_in_the_end(start, file.elements@, k, dead(reference));
        }
    } else if !has_plugin(file.elements@) && !leads_from_root(end.known.context, reference.item) {
        lemma_reference_deferred(body, at.places, at.i, at.j, at.cell);
        lemma_deferred_in_the_end(start, file.elements@, k, reference@);
        lemma_deferred_found(end.file.deferred, end.known.context, reference@);
    }
}

/// What is found of the node of an element is added by the element.
pub(crate) proof fn lemma_element_says_of_body(
    before: Progress,
    primary: Primary,
    finding: DiagnosticView,
)
    requires
        body_of(primary) matches Some(body) && items_findings(
            body.items@,
            body,
            body_path(before, primary),
            before.file.reports(),
            before.file.loads,
            before.file.next_load,
        ).contains(finding),
    ensures
        said_of(before, primary).contains(finding),
{
    let body = body_of(primary)->0;
    let findings = items_findings(
        body.items@,
        body,
        body_path(before, primary),
        before.file.reports(),
        before.file.loads,
        before.file.next_load,
    );
    lemma_step(before, primary);
    if let Primary::ReferencedNode(node) = primary {
        let first = said_of(before, primary).take(
            said_of(before, primary).len() - findings.len(),
        );
        assert(said_of(before, primary) =~= first + findings);
        lemma_in_both(first, findings, finding);
    }
}

/// What an element adds that is a node is found of the node, or that its reference leads
/// nowhere.
pub(crate) proof fn lemma_element_says_no_more(
    before: Progress,
    primary: Primary,
    finding: DiagnosticView,
)
    requires
        body_of(primary) is Some,
        said_of(before, primary).contains(finding),
    ensures
        ({
            let body = body_of(primary)->0;
            ||| items_findings(
                body.items@,
                body,
                body_path(before, primary),
                before.file.reports(),
                before.file.loads,
                before.file.next_load,
            ).contains(finding)
            ||| primary matches Primary::ReferencedNode(node) && finding == dead(node.reference)
                && before.file.reports() && target_from_root(
                before.known.context.with_labels(referenced_labels(node)),
                node.reference.item,
            ) is None
        }),
{
    let body = body_of(primary)->0;
    let findings = items_findings(
        body.items@,
        body,
        body_path(before, primary),
        before.file.reports(),
        before.file.loads,
        before.file.next_load,
    );
    lemma_step(before, primary);
    if let Primary::ReferencedNode(node) = primary {
        let first = said_of(before, primary).take(
            said_of(before, primary).len() - findings.len(),
        );
        assert(said_of(before, primary) =~= first + findings);
        lemma_in_both(first, findings, finding);
    }
}

/// Where a directive stands that includes a file.
pub open spec fn span_of_inclusion(inclusion: Include) -> Span {
    Span { start: inclusion.include_token.span.start, end: inclusion.file_name.token.span.end }
}

/// The finding of a kind about a directive that includes a file.
pub open spec fn about_inclusion(
    inclusion: Include,
    kind: ErrorCode,
    message: Seq<char>,
) -> DiagnosticView {
    DiagnosticView {
        span: span_of_inclusion(inclusion),
        source: inclusion.include_token.source,
        kind,
        message,
    }
}

/// Whether one file of a walk imports the next.
pub open spec fn is_import(imports: Edges, walk: Seq<FileId>, i: int) -> bool {
    imports.contains((walk[i], walk[i + 1]))
}

/// Whether a walk goes along imports from a file to another.
pub open spec fn walks_imports(
    imports: Edges,
    walk: Seq<FileId>,
    from: FileId,
    to: FileId,
) -> bool {
    &&& walk.len() > 0
    &&& walk[0] == from
    &&& walk[walk.len() - 1] == to
    &&& forall|i: int| 0 <= i < walk.len() - 1 ==> #[trigger] is_import(imports, walk, i)
}

/// Whether imports lead from a file to another, at once or by way of other files, or they
/// are the same.
pub open spec fn leads_back(imports: Edges, from: FileId, to: FileId) -> bool {
    exists|walk: Seq<FileId>| #[trigger] walks_imports(imports, walk, from, to)
}

/// Whether one of the findings that are listed for a file of a project, by the parser or by
/// the analysis, is an error.
pub open spec fn lists_error(project: ProjectView, file: FileId) -> bool {
    let listed = project.files[file];
    &&& project.files.contains_key(file)
    &&& ((exists|i: int|
        0 <= i < listed.parser_diagnostics.len() && project.severities.severity(
            (#[trigger] listed.parser_diagnostics[i]).kind,
        ) == Severity::Error) || (exists|i: int|
        0 <= i < listed.analysis_diagnostics.len() && project.severities.severity(
            (#[trigger] listed.analysis_diagnostics[i]).kind,
        ) == Severity::Error))
}

/// A path leads to a faulty file exactly if an error is listed for the file.
pub proof fn lemma_faulty_lists_error(project: &Project, canonical: Option<FileId>, r: bool)
    requires
        call_ensures(Project::is_faulty, (project, canonical), r),
    ensures
        r == (canonical matches Some(file) && lists_error(project@, file)),
{
    lemma_is_faulty(project@, canonical);
}

proof fn lemma_is_faulty(project: ProjectView, canonical: Option<FileId>)
    ensures
        project.is_faulty(canonical) == (canonical matches Some(file) && lists_error(
            project,
            file,
        )),
{
    if let Some(file) = canonical {
        if project.files.contains_key(file) {
            let listed = project.files[file];
            let all = listed.diagnostics();
            let severities = project.severities;
            if project.is_faulty(canonical) {
                let i = choose|i: int|
                    0 <= i < all.len() && severities.severity((#[trigger] all[i]).kind)
                        == Severity::Error;
                if i < listed.parser_diagnostics.len() {
                    assert(all[i] == listed.parser_diagnostics[i]);
                } else {
                    let j = i - listed.parser_diagnostics.len();
                    assert(all[i] == listed.analysis_diagnostics[j]);
                }
            }
            if lists_error(project, file) {
                if exists|i: int|
                    0 <= i < listed.parser_diagnostics.len() && severities.severity(
                        (#[trigger] listed.parser_diagnostics[i]).kind,
                    ) == Severity::Error {
                    let i = choose|i: int|
                        0 <= i < listed.parser_diagnostics.len() && severities.severity(
                            (#[trigger] listed.parser_diagnostics[i]).kind,
                        ) == Severity::Error;
                    assert(all[i] == listed.parser_diagnostics[i]);
                } else {
                    let i = choose|i: int|
                        0 <= i < listed.analysis_diagnostics.len() && severities.severity(
                            (#[trigger] listed.analysis_diagnostics[i]).kind,
                        ) == Severity::Error;
                    let j = listed.parser_diagnostics.len() + i;
                    assert(all[j] == listed.analysis_diagnostics[i]);
                }
            }
        }
    }
}

pub(crate) proof fn lemma_leads_back_reaches(imports: Edges, from: FileId, to: FileId)
    ensures
        leads_back(imports, from, to) == reaches(imports, from, to),
{
    if reaches(imports, from, to) {
        let walk = choose|walk: Seq<FileId>| walk_between(imports, walk, from, to);
        assert forall|i: int| 0 <= i < walk.len() - 1 implies #[trigger] is_import(
            imports,
            walk,
            i,
        ) by {
            assert(imports.contains((walk[i], walk[i + 1])));
        }
        assert(walks_imports(imports, walk, from, to));
    }
    if leads_back(imports, from, to) {
        let walk = choose|walk: Seq<FileId>| #[trigger] walks_imports(imports, walk, from, to);
        assert forall|i: int| 0 <= i < walk.len() - 1 implies imports.contains(
            (#[trigger] walk[i], walk[i + 1]),
        ) by {
            assert(is_import(imports, walk, i));
        }
        assert(walk_between(imports, walk, from, to));
    }
}

proof fn lemma_leads_back(imports: Edges, from: FileId, to: FileId)
    ensures
        leads_back(imports, from, to) == closes_circle(imports, from, seq![to]),
{
    lemma_leads_back_reaches(imports, from, to);
    let importers = seq![to];
    assert(importers[0] == to);
    if reaches(imports, from, to) {
        assert(reaches(imports, from, importers[0]));
    }
    if closes_circle(imports, from, importers) {
        let i = choose|i: int|
            0 <= i < importers.len() && reaches(imports, from, #[trigger] importers[i]);
        assert(i == 0);
    }
}

/// What a directive that includes a file adds: that it could not be found, or that it leads
/// back to the including file, or that an error is listed for it.
pub open spec fn wrong_with_inclusion(before: Progress, inclusion: Include) -> Seq<
    DiagnosticView,
> {
    match before.file.loads[before.file.next_load] {
        Err(err) => seq![about_inclusion(inclusion, ErrorCode::IOError, err.message@)],
        Ok(loaded) => if leads_back(before.known.imports, loaded.path, before.file.source) {
            seq![
                about_inclusion(
                    inclusion,
                    ErrorCode::CyclicDependencyError,
                    "Cyclic dependency between files"@,
                ),
            ]
        } else if loaded.canonical matches Some(file) && lists_error(before.file.project, file) {
            seq![
                about_inclusion(
                    inclusion,
                    ErrorCode::ErrorsInInclude,
                    "Included file contains errors"@,
                ),
            ]
        } else {
            Seq::empty()
        },
    }
}

pub(crate) proof fn lemma_inclusion_says(before: Progress, inclusion: Include)
    ensures
        ({
            let primary = Primary::Directive(AnyDirective::Include(inclusion));
            let imports = before.after_primary(primary).known.imports;
            &&& said_of(before, primary) == wrong_with_inclusion(before, inclusion)
            &&& match before.file.loads[before.file.next_load] {
                Ok(loaded) => imports == if leads_back(
                    before.known.imports,
                    loaded.path,
                    before.file.source,
                ) {
                    before.known.imports
                } else {
                    before.known.imports.insert((before.file.source, loaded.path))
                },
                Err(_) => imports == before.known.imports,
            }
        }),
{
    reveal(Progress::after_primary);
    let primary = Primary::Directive(AnyDirective::Include(inclusion));
    if let Ok(loaded) = before.file.loads[before.file.next_load] {
        lemma_leads_back(before.known.imports, loaded.path, before.file.source);
        lemma_is_faulty(before.file.project, loaded.canonical);
        let importers = seq![before.file.source];
        assert(importers[0] == before.file.source);
        assert forall|edge: (FileId, FileId)| import_edges(loaded.path, importers).contains(
            edge,
        ) == (edge == (before.file.source, loaded.path)) by {}
        assert(before.known.imports.union(import_edges(loaded.path, importers))
            =~= before.known.imports.insert((before.file.source, loaded.path)));
    }
    assert(said_of(before, primary) =~= wrong_with_inclusion(before, inclusion));
}

/// Whether one of the elements of a file says the version of the format.
pub open spec fn has_version(primaries: Seq<Primary>) -> bool {
    exists|i: int|
        0 <= i < primaries.len() && (#[trigger] primaries[i]) matches Primary::Directive(
            AnyDirective::DtsHeader(_),
        )
}

/// Whether an element of a file ends the part in which the version of the format is to be
/// said.
pub open spec fn ends_top(primary: Primary) -> bool {
    match primary {
        Primary::Root(_) => true,
        Primary::ReferencedNode(_) => true,
        Primary::Directive(AnyDirective::Memreserve(_)) => true,
        Primary::Directive(AnyDirective::Plugin(_)) => true,
        Primary::Directive(AnyDirective::OmitIfNoRef(_, _)) => true,
        _ => false,
    }
}

/// Whether one of the elements of a file ends the part in which the version of the format is
/// to be said.
pub open spec fn has_ended_top(primaries: Seq<Primary>) -> bool {
    exists|i: int| 0 <= i < primaries.len() && ends_top(#[trigger] primaries[i])
}

/// What was seen on the way through elements.
pub(crate) proof fn lemma_seen_on_the_way(start: Progress, primaries: Seq<Primary>)
    ensures
        ({
            let end = start.after_primaries(primaries);
            &&& end.file.dts_header_seen == (start.file.dts_header_seen || has_version(primaries))
            &&& end.file.first_non_include == (start.file.first_non_include || has_ended_top(
                primaries,
            ))
        }),
    decreases primaries.len(),
{
    if primaries.len() > 0 {
        let fewer = primaries.drop_last();
        lemma_seen_on_the_way(start, fewer);
        reveal(Progress::after_primary);
        assert forall|i: int| 0 <= i < fewer.len() implies fewer[i] == #[trigger] primaries[i] by {}
        if has_version(fewer) {
            let i = choose|i: int|
                0 <= i < fewer.len() && (#[trigger] fewer[i]) matches Primary::Directive(
                    AnyDirective::DtsHeader(_),
                );
            assert(primaries[i] == fewer[i]);
        }
        if has_ended_top(fewer) {
            let i = choose|i: int| 0 <= i < fewer.len() && ends_top(#[trigger] fewer[i]);
            assert(ends_top(primaries[i]));
        }
        if has_ended_top(primaries) {
            let i = choose|i: int| 0 <= i < primaries.len() && ends_top(#[trigger] primaries[i]);
            if i < fewer.len() {
                assert(ends_top(fewer[i]));
            }
        }
        if has_version(primaries) {
            let i = choose|i: int|
                0 <= i < primaries.len() && (#[trigger] primaries[i]) matches Primary::Directive(
                    AnyDirective::DtsHeader(_),
                );
            if i < fewer.len() {
                assert(primaries[i] == fewer[i]);
            }
        }
        assert(primaries.last() == primaries[primaries.len() - 1]);
    }
}

/// What a directive that says the version of the format adds.
pub open spec fn wrong_with_version(before: Progress, token: Token) -> Seq<DiagnosticView> {
    if before.file.dts_header_seen {
        seq![
            DiagnosticView {
                span: token.span,
                source: token.source,
                kind: ErrorCode::DuplicateDirective,
                message: "Duplicate dts-v1 version header"@,
            },
        ]
    } else if before.file.first_non_include {
        seq![
            DiagnosticView {
                span: token.span,
                source: token.source,
                kind: ErrorCode::MisplacedDtsHeader,
                message: "dts-v1 header must be placed on top of the file"@,
            },
        ]
    } else {
        Seq::empty()
    }
}

pub(crate) proof fn lemma_version_says(before: Progress, token: Token)
    ensures
        said_of(before, Primary::Directive(AnyDirective::DtsHeader(token)))
            == wrong_with_version(before, token),
{
    reveal(Progress::after_primary);
    assert(said_of(before, Primary::Directive(AnyDirective::DtsHeader(token)))
        =~= wrong_with_version(before, token));
}

/// Elements that neither hold a node nor delete one, nor say the version of the format, nor
/// include a file add nothing.
pub(crate) proof fn lemma_others_say_nothing(before: Progress, primary: Primary)
    requires
        body_of(primary) is None,
        outer_reference(primary) is None,
        !(primary matches Primary::Directive(AnyDirective::DtsHeader(_))),
        !(primary matches Primary::Directive(AnyDirective::Include(_))),
    ensures
        said_of(before, primary).len() == 0,
{
    reveal(Progress::after_primary);
}

/// Where a value stands.
pub open spec fn span_of_value(value: PropertyValue) -> Span {
    match value {
        PropertyValue::String(text) => text.token.span,
        PropertyValue::Reference(reference) => reference.token.span,
        PropertyValue::Cells(open, _, close) => Span {
            start: open.span.start,
            end: close.span.end,
        },
        PropertyValue::ByteStrings(open, _, close) => Span {
            start: open.span.start,
            end: close.span.end,
        },
        PropertyValue::Incbin(_, inclusion, close) => Span {
            start: inclusion.include_token.span.start,
            end: close.span.end,
        },
    }
}

/// The file in which a value stands.
pub open spec fn source_of_value(value: PropertyValue) -> FileId {
    match value {
        PropertyValue::String(text) => text.token.source,
        PropertyValue::Reference(reference) => reference.token.source,
        PropertyValue::Cells(open, _, _) => open.source,
        PropertyValue::ByteStrings(open, _, _) => open.source,
        PropertyValue::Incbin(open, _, _) => open.source,
    }
}

/// Where a property stands, with its label.
pub open spec fn span_of_property(property: Property) -> Span {
    Span {
        start: match property.label {
            Some(label) => label.token.span.start,
            None => property.name.token.span.start,
        },
        end: property.end.span.end,
    }
}

/// Whether a finding says that a value of a property is no string although the property is
/// named `compatible`.
pub open spec fn is_no_string(property: Property, j: int, finding: DiagnosticView) -> bool {
    &&& property.name.item@ == "compatible"@
    &&& 0 <= j < property.values@.len()
    &&& !(property.values@[j] is String)
    &&& finding == DiagnosticView {
        span: span_of_value(property.values@[j]),
        source: source_of_value(property.values@[j]),
        kind: ErrorCode::NonStringInCompatible,
        message: "compatible property should only contain strings"@,
    }
}

/// Whether a finding says that a property does not hold what its name asks for: each value
/// of `compatible` is a string, `model` of the root node is one string, and `phandle` is one
/// number.
pub open spec fn breaks_schema(
    property: Property,
    in_root_node: bool,
    finding: DiagnosticView,
) -> bool {
    ||| exists|j: int| #[trigger] is_no_string(property, j, finding)
    ||| {
        &&& property.name.item@ == "model"@
        &&& in_root_node
        &&& !(property.values@.len() == 1 && property.values@[0] is String)
        &&& finding == DiagnosticView {
            span: span_of_property(property),
            source: property.end.source,
            kind: ErrorCode::ExpectedString,
            message: "property should contain a single string"@,
        }
    }
    ||| {
        &&& property.name.item@ == "phandle"@
        &&& !(property.values@.len() == 1 && (property.values@[0] matches PropertyValue::Cells(
            _,
            cells,
            _,
        ) && cells@.len() == 1 && cells@[0] is Number))
        &&& finding == DiagnosticView {
            span: span_of_property(property),
            source: property.end.source,
            kind: ErrorCode::ExpectedU32,
            message: "property should contain a single number"@,
        }
    }
}

proof fn lemma_no_strings(
    values: Seq<PropertyValue>,
    property: Arc<Property>,
    finding: DiagnosticView,
)
    requires
        property.name.item@ == "compatible"@,
        values.len() <= property.values@.len(),
        forall|j: int| 0 <= j < values.len() ==> values[j] == property.values@[j],
    ensures
        non_string_findings(values).contains(finding) == exists|j: int|
            j < values.len() && #[trigger] is_no_string(*property, j, finding),
    decreases values.len(),
{
    if values.len() > 0 {
        let fewer = values.drop_last();
        let last = values.len() - 1;
        lemma_no_strings(fewer, property, finding);
        let more = non_string_findings(values).skip(non_string_findings(fewer).len() as int);
        assert(non_string_findings(values) =~= non_string_findings(fewer) + more);
        lemma_in_both(non_string_findings(fewer), more, finding);
        assert(values[last] == property.values@[last]);
        if !(values[last] is String) {
            assert(more.len() == 1);
            assert(more.contains(finding) == (more[0] == finding));
            assert(is_no_string(*property, last, finding) == (more[0] == finding));
        } else {
            assert(more.len() == 0);
        }
        if non_string_findings(fewer).contains(finding) {
            let j = choose|j: int|
                j < fewer.len() && #[trigger] is_no_string(*property, j, finding);
            assert(j < values.len() && is_no_string(*property, j, finding));
        }
        if exists|j: int| j < values.len() && #[trigger] is_no_string(*property, j, finding) {
            let j = choose|j: int|
                j < values.len() && #[trigger] is_no_string(*property, j, finding);
            if j < last {
                assert(j < fewer.len() && is_no_string(*property, j, finding));
            }
        }
    }
}

/// What the name of a property gives rise to is that it does not hold what its name asks
/// for.
proof fn lemma_schema(property: Arc<Property>, path: Seq<NodeNameView>, finding: DiagnosticView)
    ensures
        schema_findings(*property, path).contains(finding) == breaks_schema(
            *property,
            path.len() == 0,
            finding,
        ),
{
    reveal_strlit("compatible");
    reveal_strlit("model");
    reveal_strlit("phandle");
    assert("compatible"@.len() == 10 && "model"@.len() == 5 && "phandle"@.len() == 7);
    let name = property.name.item@;
    if name == "compatible"@ {
        lemma_no_strings(property.values@, property, finding);
        if exists|j: int| #[trigger] is_no_string(*property, j, finding) {
            let j = choose|j: int| #[trigger] is_no_string(*property, j, finding);
            assert(j < property.values@.len() && is_no_string(*property, j, finding));
        }
        assert(breaks_schema(*property, path.len() == 0, finding) ==> exists|j: int| #[trigger]
            is_no_string(*property, j, finding));
    } else if name == "model"@ {
        if path.len() == 0 && !crate::tree::is_single_string(property.values@) {
            let said = schema_findings_of(property, path);
            assert(said.len() == 1);
            assert(said.contains(finding) == (said[0] == finding));
        }
    } else if name == "phandle"@ {
        if !crate::tree::is_single_number(property.values@) {
            let said = schema_findings_of(property, path);
            assert(said.len() == 1);
            assert(said.contains(finding) == (said[0] == finding));
        }
    }
}

spec fn schema_findings_of(property: Arc<Property>, path: Seq<NodeNameView>) -> Seq<
    DiagnosticView,
> {
    schema_findings(*property, path)
}

/// Whether a finding says that a reference leads nowhere that is written somewhere in the
/// node of the element at `k`.
pub open spec fn is_dead_inside(
    primaries: Seq<Primary>,
    file_type: FileType,
    context: ContextView,
    finding: DiagnosticView,
    k: int,
    at: ReferencePlace,
) -> bool {
    &&& file_type == FileType::DtSource
    &&& 0 <= k < primaries.len()
    &&& body_of(primaries[k]) matches Some(body)
    &&& reference_at(body, at) matches Some(reference)
    &&& finding == dead(reference)
    &&& if starts_at_node(reference.item) {
        !has_plugin(primaries.take(k)) && !leads_from_node(
            payload_at(body, at.places)->0,
            reference.item,
        )
    } else {
        !has_plugin(primaries) && !leads_from_root(context, reference.item)
    }
}

/// What is known where the reference of an element is looked at: the label of a node that
/// is given by a reference counts already.
pub open spec fn known_at(context: ContextView, primary: Primary) -> ContextView {
    match primary {
        Primary::ReferencedNode(node) => match node.label {
            Some(label) => ContextView {
                labels: context.labels.insert(label.item@, LabeledView::ReferencedNode(node)),
                ..context
            },
            None => context,
        },
        _ => context,
    }
}

/// Whether a finding says that the reference leads nowhere that the element at `k` gives a
/// node by, or deletes one by. What is known before the element is in `context`.
pub open spec fn is_dead_outside(
    primaries: Seq<Primary>,
    file_type: FileType,
    context: ContextView,
    finding: DiagnosticView,
    k: int,
) -> bool {
    &&& file_type == FileType::DtSource
    &&& 0 <= k < primaries.len()
    &&& !has_plugin(primaries.take(k))
    &&& outer_reference(primaries[k]) matches Some(reference)
    &&& finding == dead(reference)
    &&& target_from_root(known_at(context, primaries[k]), reference.item) is None
}

/// How many files are named in the elements of a file before the one at `k`.
pub open spec fn named_before_element(primaries: Seq<Primary>, k: int) -> int {
    primaries_requests(primaries.take(k)).len() as int
}

/// Whether a finding says what is wrong with the inclusion that the element at `k` is: the
/// file could not be found, or it leads back to this one, or an error is listed for it. The
/// imports that were met before the element are in `imports`.
pub open spec fn is_wrong_inclusion(
    primaries: Seq<Primary>,
    source: FileId,
    project: ProjectView,
    loads: Seq<LoadOutcome>,
    imports: Edges,
    finding: DiagnosticView,
    k: int,
) -> bool {
    &&& 0 <= k < primaries.len()
    &&& primaries[k] matches Primary::Directive(AnyDirective::Include(inclusion))
    &&& match loads[named_before_element(primaries, k)] {
        Err(err) => finding == about_inclusion(inclusion, ErrorCode::IOError, err.message@),
        Ok(loaded) => if leads_back(imports, loaded.path, source) {
            finding == about_inclusion(
                inclusion,
                ErrorCode::CyclicDependencyError,
                "Cyclic dependency between files"@,
            )
        } else {
            &&& loaded.canonical matches Some(file)
            &&& lists_error(project, file)
            &&& finding == about_inclusion(
                inclusion,
                ErrorCode::ErrorsInInclude,
                "Included file contains errors"@,
            )
        },
    }
}

/// Whether a finding says that the version of the format is said twice, or behind something
/// that it should be said before, by the element at `k`.
pub open spec fn is_wrong_version(
    primaries: Seq<Primary>,
    finding: DiagnosticView,
    k: int,
) -> bool {
    &&& 0 <= k < primaries.len()
    &&& primaries[k] matches Primary::Directive(AnyDirective::DtsHeader(token))
    &&& finding.span == token.span
    &&& finding.source == token.source
    &&& if has_version(primaries.take(k)) {
        &&& finding.kind == ErrorCode::DuplicateDirective
        &&& finding.message == "Duplicate dts-v1 version header"@
    } else {
        &&& has_ended_top(primaries.take(k))
        &&& finding.kind == ErrorCode::MisplacedDtsHeader
        &&& finding.message == "dts-v1 header must be placed on top of the file"@
    }
}

/// Whether a finding says that a source file does not say the version of the format.
pub open spec fn is_missing_version(
    primaries: Seq<Primary>,
    source: FileId,
    file_type: FileType,
    finding: DiagnosticView,
) -> bool {
    let top = Position { line: 0, character: 0 };
    &&& file_type == FileType::DtSource
    &&& !has_version(primaries)
    &&& finding == DiagnosticView {
        span: Span { start: top, end: top },
        source,
        kind: ErrorCode::NonDtsV1,
        message: "Files without the '/dts-v1/' Header are not supported"@,
    }
}

/// The path of the node that an element of a file is: the one that its reference leads to,
/// or that of the root node.
pub open spec fn path_of_element(context: ContextView, primary: Primary) -> Seq<NodeNameView> {
    match primary {
        Primary::ReferencedNode(node) => match target_from_root(
            known_at(context, primary),
            node.reference.item,
        ) {
            Some(path) => path,
            None => Seq::empty(),
        },
        _ => Seq::empty(),
    }
}

/// Whether a finding says that a property does not hold what its name asks for which is
/// written somewhere in the node of the element at `k`.
pub open spec fn is_broken_inside(
    primaries: Seq<Primary>,
    context: ContextView,
    finding: DiagnosticView,
    k: int,
    places: Seq<int>,
    i: int,
) -> bool {
    &&& 0 <= k < primaries.len()
    &&& body_of(primaries[k]) matches Some(body)
    &&& property_at(body, places, i) matches Some(property)
    &&& breaks_schema(
        *property,
        path_of_element(context, primaries[k]).len() == 0 && places.len() == 0,
        finding,
    )
}

/// How many files are named before the value at `j` of a property in the node of the
/// element at `k`.
pub open spec fn named_before_value(
    primaries: Seq<Primary>,
    k: int,
    places: Seq<int>,
    i: int,
    j: int,
) -> int {
    let body = body_of(primaries[k])->0;
    named_before(named_before_element(primaries, k), body, places) + items_requests(
        (payload_at(body, places)->0).items@.take(i),
    ).len() + values_requests((property_at(body, places, i)->0).values@.take(j)).len()
}

/// Whether a finding says that a file could not be found that a value names, which is
/// written somewhere in the node of the element at `k`.
pub open spec fn is_missing_inside(
    primaries: Seq<Primary>,
    loads: Seq<LoadOutcome>,
    finding: DiagnosticView,
    k: int,
    places: Seq<int>,
    i: int,
    j: int,
) -> bool {
    &&& 0 <= k < primaries.len()
    &&& body_of(primaries[k]) matches Some(body)
    &&& property_at(body, places, i) matches Some(property)
    &&& 0 <= j < property.values@.len()
    &&& property.values@[j] matches PropertyValue::Incbin(_, inclusion, _)
    &&& loads[named_before_value(primaries, k, places, i, j)] matches Err(err)
    &&& finding == DiagnosticView {
        span: span_of_value(property.values@[j]),
        source: inclusion.include_token.source,
        kind: ErrorCode::IOError,
        message: err.message@,
    }
}

/// Whether the properties and references of a file, its inclusions and what it says of the
/// version of the format call for a finding. What an analysis knows before it is in `known`,
/// and what it knows of the device tree afterwards is in `context`.
pub open spec fn is_called_for(
    known: AnalysisView,
    context: ContextView,
    file: &DtsFile,
    file_type: FileType,
    project: ProjectView,
    loads: Seq<LoadOutcome>,
    finding: DiagnosticView,
) -> bool {
    let primaries = file.elements@;
    let start = file_start(known, file.source, file_type, project, loads);
    ||| exists|k: int, at: ReferencePlace| #[trigger]
        is_dead_inside(primaries, file_type, context, finding, k, at)
    ||| exists|k: int| #[trigger]
        is_dead_outside(
            primaries,
            file_type,
            after_some(start, primaries, k).known.context,
            finding,
            k,
        )
    ||| exists|k: int| #[trigger]
        is_wrong_inclusion(
            primaries,
            file.source,
            project,
            loads,
            after_some(start, primaries, k).known.imports,
            finding,
            k,
        )
    ||| exists|k: int| #[trigger] is_wrong_version(primaries, finding, k)
    ||| is_missing_version(primaries, file.source, file_type, finding)
    ||| exists|k: int, places: Seq<int>, i: int| #[trigger]
        is_broken_inside(
            primaries,
            after_some(start, primaries, k).known.context,
            finding,
            k,
            places,
            i,
        )
    ||| exists|k: int, places: Seq<int>, i: int, j: int| #[trigger]
        is_missing_inside(primaries, loads, finding, k, places, i, j)
}

/// What is known where the reference of an element is looked at.
pub(crate) proof fn lemma_known_at(context: ContextView, primary: Primary)
    ensures
        primary matches Primary::ReferencedNode(node) ==> context.with_labels(
            referenced_labels(node),
        ) == known_at(context, primary),
{
    if let Primary::ReferencedNode(node) = primary {
        let pairs = referenced_labels(node);
        match node.label {
            Some(label) => {
                assert(pairs.drop_last() =~= Seq::empty());
                assert(bind_all(context.labels, pairs.drop_last()) == context.labels);
            },
            None => {},
        }
    }
}

/// A path has as many names as places lead through, and those that it starts with.
proof fn lemma_path_at_length(path: Seq<NodeNameView>, payload: NodePayload, places: Seq<int>)
    requires
        payload_at(payload, places) is Some,
    ensures
        path_at(path, payload, places).len() == path.len() + places.len(),
    decreases places.len(),
{
    if places.len() > 0 {
        if let NodeItem::Node(node) = payload.items@[places[0]] {
            lemma_path_at_length(path.push(node.name.item@), payload_of(node), places.skip(1));
        }
    }
}

/// What is found of the node of an element is called for.
proof fn lemma_body_finding_called_for(
    known: AnalysisView,
    context: ContextView,
    file: &DtsFile,
    file_type: FileType,
    project: ProjectView,
    loads: Seq<LoadOutcome>,
    finding: DiagnosticView,
    k: int,
)
    requires
        0 <= k < file.elements@.len(),
        body_of(file.elements@[k]) is Some,
        ({
            let start = file_start(known, file.source, file_type, project, loads);
            let before = after_some(start, file.elements@, k);
            let body = body_of(file.elements@[k])->0;
            items_findings(
                body.items@,
                body,
                body_path(before, file.elements@[k]),
                before.file.reports(),
                before.file.loads,
                before.file.next_load,
            ).contains(finding)
        }),
    ensures
        is_called_for(known, context, file, file_type, project, loads, finding),
{
    let primaries = file.elements@;
    let start = file_start(known, file.source, file_type, project, loads);
    let before = after_some(start, primaries, k);
    let body = body_of(primaries[k])->0;
    let path = body_path(before, primaries[k]);
    lemma_on_the_way(start, primaries.take(k));
    lemma_known_at(before.known.context, primaries[k]);
    let (places, i) = lemma_some_property_findings(
        body,
        path,
        before.file.reports(),
        loads,
        before.file.next_load,
        finding,
    );
    let inner = payload_at(body, places)->0;
    let property = property_at(body, places, i)->0;
    let inner_path = path_at(path, body, places);
    let count = named_before(before.file.next_load, body, places) + items_requests(
        inner.items@.take(i),
    ).len();
    lemma_property_says(
        property,
        inner,
        inner_path,
        before.file.reports(),
        loads,
        count,
        finding,
    );
    lemma_schema(property, inner_path, finding);
    lemma_path_at_length(path, body, places);
    if schema_findings_of(property, inner_path).contains(finding) {
        assert(is_broken_inside(
            primaries,
            after_some(start, primaries, k).known.context,
            finding,
            k,
            places,
            i,
        ));
    } else {
        let j = lemma_some_value_findings(
            property.values@,
            inner,
            before.file.reports(),
            loads,
            count,
            finding,
        );
        match property.values@[j] {
            PropertyValue::Incbin(_, _, _) => {
                assert(is_missing_inside(primaries, loads, finding, k, places, i, j));
            },
            _ => {
                let value = property.values@[j];
                let reference = lemma_some_local_found(
                    value_references(value),
                    inner,
                    before.file.reports(),
                    finding,
                );
                let cell = lemma_some_reference_in(value, reference);
                let at = ReferencePlace { places, i, j, cell };
                lemma_where_references_lead(context, inner, reference_at(body, at)->0);
                assert(is_dead_inside(primaries, file_type, context, finding, k, at));
            },
        }
    }
}

/// What an element adds is called for.
proof fn lemma_said_called_for(
    known: AnalysisView,
    context: ContextView,
    file: &DtsFile,
    file_type: FileType,
    project: ProjectView,
    loads: Seq<LoadOutcome>,
    finding: DiagnosticView,
    k: int,
)
    requires
        0 <= k < file.elements@.len(),
        said_of(
            after_some(
                file_start(known, file.source, file_type, project, loads),
                file.elements@,
                k,
            ),
            file.elements@[k],
        ).contains(finding),
    ensures
        is_called_for(known, context, file, file_type, project, loads, finding),
{
    let primaries = file.elements@;
    let start = file_start(known, file.source, file_type, project, loads);
    let before = after_some(start, primaries, k);
    lemma_on_the_way(start, primaries.take(k));
    lemma_seen_on_the_way(start, primaries.take(k));
    match primaries[k] {
        Primary::Directive(AnyDirective::DtsHeader(token)) => {
            lemma_version_says(before, token);
            assert(is_wrong_version(primaries, finding, k));
        },
        Primary::Directive(AnyDirective::Include(inclusion)) => {
            lemma_inclusion_says(before, inclusion);
            assert(is_wrong_inclusion(
                primaries,
                file.source,
                project,
                loads,
                after_some(start, primaries, k).known.imports,
                finding,
                k,
            ));
        },
        Primary::Directive(AnyDirective::DeletedNode(_, _)) => {
            lemma_step(before, primaries[k]);
            assert(is_dead_outside(
                primaries,
                file_type,
                after_some(start, primaries, k).known.context,
                finding,
                k,
            ));
        },
        _ => {
            if body_of(primaries[k]) is None {
                lemma_others_say_nothing(before, primaries[k]);
            } else {
                lemma_known_at(before.known.context, primaries[k]);
                lemma_element_says_no_more(before, primaries[k], finding);
                let body = body_of(primaries[k])->0;
                if items_findings(
                    body.items@,
                    body,
                    body_path(before, primaries[k]),
                    before.file.reports(),
                    before.file.loads,
                    before.file.next_load,
                ).contains(finding) {
                    lemma_body_finding_called_for(
                        known,
                        context,
                        file,
                        file_type,
                        project,
                        loads,
                        finding,
                        k,
                    );
                } else {
                    assert(is_dead_outside(
                        primaries,
                        file_type,
                        after_some(start, primaries, k).known.context,
                        finding,
                        k,
                    ));
                }
            }
        },
    }
}

/// What is found once the whole file is known is called for.
proof fn lemma_late_called_for(
    known: AnalysisView,
    file: &DtsFile,
    file_type: FileType,
    project: ProjectView,
    loads: Seq<LoadOutcome>,
    finding: DiagnosticView,
)
    requires
        ({
            let end = file_start(known, file.source, file_type, project, loads).after_primaries(
                file.elements@,
            );
            deferred_findings(
                end.file.deferred,
                end.known.context,
                end.file.reports(),
            ).contains(finding)
        }),
    ensures
        is_called_for(
            known,
            file_start(known, file.source, file_type, project, loads).after_primaries(
                file.elements@,
            ).known.context,
            file,
            file_type,
            project,
            loads,
            finding,
        ),
{
    let primaries = file.elements@;
    let start = file_start(known, file.source, file_type, project, loads);
    let end = start.after_primaries(primaries);
    lemma_on_the_way(start, primaries);
    let reference = lemma_some_deferred_found(
        end.file.deferred,
        end.known.context,
        end.file.reports(),
        finding,
    );
    let k = lemma_some_element_deferred(start, primaries, reference);
    let body = body_of(primaries[k])->0;
    let at = lemma_some_reference_deferred(body, reference);
    lemma_where_references_lead(
        end.known.context,
        payload_at(body, at.places)->0,
        reference_at(body, at)->0,
    );
    assert(is_dead_inside(primaries, file_type, end.known.context, finding, k, at));
}

/// Each finding about a file is called for by something in it.
proof fn lemma_found_called_for(
    known: AnalysisView,
    file: &DtsFile,
    file_type: FileType,
    project: ProjectView,
    loads: Seq<LoadOutcome>,
    finding: DiagnosticView,
)
    requires
        file_start(known, file.source, file_type, project, loads).after_primaries(
            file.elements@,
        ).findings().contains(finding),
    ensures
        is_called_for(
            known,
            file_start(known, file.source, file_type, project, loads).after_primaries(
                file.elements@,
            ).known.context,
            file,
            file_type,
            project,
            loads,
            finding,
        ),
{
    let start = file_start(known, file.source, file_type, project, loads);
    let end = start.after_primaries(file.elements@);
    lemma_end(end, finding);
    if end.file.diagnostics.contains(finding) {
        let k = lemma_some_element_said(start, file.elements@, finding);
        lemma_said_called_for(
            known,
            end.known.context,
            file,
            file_type,
            project,
            loads,
            finding,
            k,
        );
    } else if deferred_findings(
        end.file.deferred,
        end.known.context,
        end.file.reports(),
    ).contains(finding) {
        lemma_late_called_for(known, file, file_type, project, loads, finding);
    } else {
        lemma_on_the_way(start, file.elements@);
        lemma_seen_on_the_way(start, file.elements@);
        assert(is_missing_version(file.elements@, file.source, file_type, finding));
    }
}

/// What an element calls for is found in the end.
proof fn lemma_element_is_reported(
    known: AnalysisView,
    file: &DtsFile,
    file_type: FileType,
    project: ProjectView,
    loads: Seq<LoadOutcome>,
    finding: DiagnosticView,
    k: int,
)
    requires
        ({
            let primaries = file.elements@;
            let start = file_start(known, file.source, file_type, project, loads);
            let context = after_some(start, primaries, k).known.context;
            let imports = after_some(start, primaries, k).known.imports;
            ||| is_dead_outside(primaries, file_type, context, finding, k)
            ||| is_wrong_inclusion(
                primaries,
                file.source,
                project,
                loads,
                imports,
                finding,
                k,
            )
            ||| is_wrong_version(primaries, finding, k)
        }),
    ensures
        file_start(known, file.source, file_type, project, loads).after_primaries(
            file.elements@,
        ).file.diagnostics.contains(finding),
{
    let primaries = file.elements@;
    let start = file_start(known, file.source, file_type, project, loads);
    let before = after_some(start, primaries, k);
    lemma_on_the_way(start, primaries.take(k));
    lemma_seen_on_the_way(start, primaries.take(k));
    let said = said_of(before, primaries[k]);
    match primaries[k] {
        Primary::Directive(AnyDirective::DtsHeader(token)) => {
            lemma_version_says(before, token);
            assert(said[0] == finding);
        },
        Primary::Directive(AnyDirective::Include(inclusion)) => {
            lemma_inclusion_says(before, inclusion);
            assert(said[0] == finding);
        },
        _ => {
            lemma_step(before, primaries[k]);
            lemma_known_at(before.known.context, primaries[k]);
            assert(said[0] == finding);
        },
    }
    lemma_said_in_the_end(start, primaries, k, finding);
}

/// What a property calls for is found in the end.
proof fn lemma_property_is_reported(
    known: AnalysisView,
    file: &DtsFile,
    file_type: FileType,
    project: ProjectView,
    loads: Seq<LoadOutcome>,
    finding: DiagnosticView,
    k: int,
    places: Seq<int>,
    i: int,
    j: int,
)
    requires
        ({
            let primaries = file.elements@;
            let start = file_start(known, file.source, file_type, project, loads);
            let context = after_some(start, primaries, k).known.context;
            ||| is_broken_inside(primaries, context, finding, k, places, i)
            ||| is_missing_inside(primaries, loads, finding, k, places, i, j)
        }),
    ensures
        file_start(known, file.source, file_type, project, loads).after_primaries(
            file.elements@,
        ).file.diagnostics.contains(finding),
{
    let primaries = file.elements@;
    let start = file_start(known, file.source, file_type, project, loads);
    let before = after_some(start, primaries, k);
    let body = body_of(primaries[k])->0;
    let path = body_path(before, primaries[k]);
    let inner = payload_at(body, places)->0;
    let property = property_at(body, places, i)->0;
    let inner_path = path_at(path, body, places);
    let reports = before.file.reports();
    let count = named_before(before.file.next_load, body, places) + items_requests(
        inner.items@.take(i),
    ).len();
    lemma_on_the_way(start, primaries.take(k));
    lemma_known_at(before.known.context, primaries[k]);
    lemma_path_at_length(path, body, places);
    lemma_schema(property, inner_path, finding);
    if is_missing_inside(primaries, loads, finding, k, places, i, j) {
        let value = property.values@[j];
        let said = value_findings(
            value,
            inner,
            reports,
            loads,
            count + values_requests(property.values@.take(j)).len(),
        );
        assert(said[0] == finding);
        lemma_value_findings(property.values@, inner, reports, loads, count, j, finding);
    }
    lemma_property_says(property, inner, inner_path, reports, loads, count, finding);
    lemma_property_findings(
        body,
        places,
        i,
        path,
        reports,
        loads,
        before.file.next_load,
        finding,
    );
    lemma_element_says_of_body(before, primaries[k], finding);
    lemma_said_in_the_end(start, primaries, k, finding);
}

/// What the references, properties and inclusions of a file call for is found, and what it
/// says of the version of the format too.
#[verifier::rlimit(40)]
proof fn lemma_called_for_found(
    known: AnalysisView,
    file: &DtsFile,
    file_type: FileType,
    project: ProjectView,
    loads: Seq<LoadOutcome>,
    finding: DiagnosticView,
)
    requires
        is_called_for(
            known,
            file_start(known, file.source, file_type, project, loads).after_primaries(
                file.elements@,
            ).known.context,
            file,
            file_type,
            project,
            loads,
            finding,
        ),
    ensures
        file_start(known, file.source, file_type, project, loads).after_primaries(
            file.elements@,
        ).findings().contains(finding),
{
    let primaries = file.elements@;
    let start = file_start(known, file.source, file_type, project, loads);
    let end = start.after_primaries(primaries);
    let context = end.known.context;
    lemma_end(end, finding);
    if exists|k: int, at: ReferencePlace| #[trigger]
        is_dead_inside(primaries, file_type, context, finding, k, at) {
        let (k, at) = choose|k: int, at: ReferencePlace| #[trigger]
            is_dead_inside(primaries, file_type, context, finding, k, at);
        lemma_dead_inside(known, file, file_type, project, loads, k, at);
    } else if exists|k: int| #[trigger]
        is_dead_outside(
            primaries,
            file_type,
            after_some(start, primaries, k).known.context,
            finding,
            k,
        ) {
        let k = choose|k: int| #[trigger]
            is_dead_outside(
                primaries,
                file_type,
                after_some(start, primaries, k).known.context,
                finding,
                k,
            );
        lemma_element_is_reported(known, file, file_type, project, loads, finding, k);
    } else if exists|k: int| #[trigger]
        is_wrong_inclusion(
            primaries,
            file.source,
            project,
            loads,
            after_some(start, primaries, k).known.imports,
            finding,
            k,
        ) {
        let k = choose|k: int| #[trigger]
            is_wrong_inclusion(
                primaries,
                file.source,
                project,
                loads,
                after_some(start, primaries, k).known.imports,
                finding,
                k,
            );
        lemma_element_is_reported(known, file, file_type, project, loads, finding, k);
    } else if exists|k: int| #[trigger] is_wrong_version(primaries, finding, k) {
        let k = choose|k: int| #[trigger] is_wrong_version(primaries, finding, k);
        lemma_element_is_reported(known, file, file_type, project, loads, finding, k);
    } else if is_missing_version(primaries, file.source, file_type, finding) {
        lemma_on_the_way(start, primaries);
        lemma_seen_on_the_way(start, primaries);
    } else if exists|k: int, places: Seq<int>, i: int| #[trigger]
        is_broken_inside(
            primaries,
            after_some(start, primaries, k).known.context,
            finding,
            k,
            places,
            i,
        ) {
        let (k, places, i) = choose|k: int, places: Seq<int>, i: int| #[trigger]
            is_broken_inside(
                primaries,
                after_some(start, primaries, k).known.context,
                finding,
                k,
                places,
                i,
            );
        lemma_property_is_reported(
            known,
            file,
            file_type,
            project,
            loads,
            finding,
            k,
            places,
            i,
            0,
        );
    } else {
        let (k, places, i, j) = choose|k: int, places: Seq<int>, i: int, j: int| #[trigger]
            is_missing_inside(primaries, loads, finding, k, places, i, j);
        lemma_property_is_reported(
            known,
            file,
            file_type,
            project,
            loads,
            finding,
            k,
            places,
            i,
            j,
        );
    }
}

/// Something is found in a file exactly if it is called for by something in the file.
pub(crate) proof fn lemma_found(
    known: AnalysisView,
    file: &DtsFile,
    file_type: FileType,
    project: ProjectView,
    loads: Seq<LoadOutcome>,
    finding: DiagnosticView,
)
    ensures
        ({
            let end = file_start(known, file.source, file_type, project, loads).after_primaries(
                file.elements@,
            );
            end.findings().contains(finding) == is_called_for(
                known,
                end.known.context,
                file,
                file_type,
                project,
                loads,
                finding,
            )
        }),
{
    let end = file_start(known, file.source, file_type, project, loads).after_primaries(
        file.elements@,
    );
    if end.findings().contains(finding) {
        lemma_found_called_for(known, file, file_type, project, loads, finding);
    }
    if is_called_for(
        known,
        end.known.context,
        file,
        file_type,
        project,
        loads,
        finding,
    ) {
        lemma_called_for_found(known, file, file_type, project, loads, finding);
    }
}

/// A finding is reported about a file exactly if something in the file calls for it: a
/// reference that leads nowhere, wherever it is written; an inclusion of a file that is
/// missing, leads back or has errors; a value that names a missing file; a property that
/// does not hold what its name asks for; or what the file says of the version of the format.
pub proof fn lemma_reported_if_called_for(
    analysis: &mut Analysis,
    file: &DtsFile,
    file_type: FileType,
    project: &Project,
    loads: &[LoadOutcome],
    r: AnalysisResult,
    finding: DiagnosticView,
)
    requires
        call_ensures(Analysis::analyze_file, (analysis, file, file_type, project, loads), r),
    ensures
        diagnostics_view(r.diagnostics@).contains(finding) <==> is_called_for(
            old(analysis)@,
            final(analysis)@.context,
            file,
            file_type,
            project@,
            loads@,
            finding,
        ),
{
    lemma_found(old(analysis)@, file, file_type, project@, loads@, finding);
}

} // verus!
