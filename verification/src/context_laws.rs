//! What is known of a device tree after an analysis.
use crate::analysis::{file_start, Analysis, AnalysisResult, Progress};
use crate::ast::{AnyDirective, DtsFile, Node, NodeNameView, Primary};
use crate::context::{ContextView, LabeledView};
use crate::data::{FileId, FileType};
use crate::finding_laws::{
    after_some, body_of, body_path, leads_back, lemma_known_at, lemma_leads_back_reaches,
    lemma_on_the_way, path_of_element,
};
use crate::import_guard::{closes_circle, import_edges};
use crate::keyed::KeyedMap;
use crate::loader::LoadOutcome;
use crate::place_laws::{
    labeled_at, lemma_in_both, lemma_label_written, lemma_node_written, lemma_some_label_written,
    lemma_some_node_written, node_at_place,
};
use crate::project::Project;
use crate::text::texts;
use crate::tree::{
    among, bind_all, items_labels, items_paths, lemma_bind_all_keys, load_requests, node_labels,
    node_paths, own_labels, referenced_labels,
};
use std::sync::Arc;
use vstd::prelude::*;

verus! {

/// Whether a label is written at something in an element of a file: at the node that the
/// element is, or at a node or property anywhere in it. What was known before the element is
/// in `context`.
pub open spec fn writes_label(
    primary: Primary,
    context: ContextView,
    label: Seq<char>,
    labeled: LabeledView,
) -> bool {
    ||| primary matches Primary::Root(node) && node.label matches Some(own) && own.item@ == label
        && labeled == LabeledView::Node(node, Seq::empty())
    ||| primary matches Primary::ReferencedNode(node) && node.label matches Some(own) && own.item@
        == label && labeled == LabeledView::ReferencedNode(node)
    ||| body_of(primary) matches Some(body) && exists|places: Seq<int>, i: int| #[trigger]
        labeled_at(body, path_of_element(context, primary), places, i) == Some((label, labeled))
}

/// Whether a node with a path is written in an element of a file: the root node, or a node
/// anywhere in a node.
pub open spec fn writes_node(
    primary: Primary,
    context: ContextView,
    path: Seq<NodeNameView>,
    written: Arc<Node>,
) -> bool {
    ||| primary matches Primary::Root(node) && path.len() == 0 && written == node
    ||| body_of(primary) matches Some(body) && exists|places: Seq<int>, i: int| #[trigger]
        node_at_place(body, path_of_element(context, primary), places, i) == Some((path, written))
}

/// What is put in under a key is what a pair says, if there is one, or what was there.
proof fn lemma_bound<K, V>(map: Map<K, V>, pairs: Seq<(K, V)>, key: K)
    ensures
        among(pairs, key) ==> bind_all(map, pairs).contains_key(key) && pairs.contains(
            (key, bind_all(map, pairs)[key]),
        ),
        forall|value: V| #[trigger] pairs.contains((key, value)) ==> among(pairs, key),
        !among(pairs, key) ==> bind_all(map, pairs).contains_key(key) == map.contains_key(key),
        !among(pairs, key) && map.contains_key(key) ==> bind_all(map, pairs)[key] == map[key],
    decreases pairs.len(),
{
    lemma_bind_all_keys(map, pairs, key);
    assert forall|value: V| #[trigger] pairs.contains((key, value)) implies among(
        pairs,
        key,
    ) by {
        let i = choose|i: int| 0 <= i < pairs.len() && pairs[i] == (key, value);
        assert(pairs[i].0 == key);
    }
    if pairs.len() > 0 && among(pairs, key) {
        let fewer = pairs.drop_last();
        lemma_bound(map, fewer, key);
        assert(pairs[pairs.len() - 1] == pairs.last());
        let i = choose|i: int| 0 <= i < pairs.len() && (#[trigger] pairs[i]).0 == key;
        if pairs.last().0 == key {
            assert(pairs[pairs.len() - 1] == (key, bind_all(map, pairs)[key]));
        } else {
            assert(fewer[i].0 == key);
            let value = bind_all(map, fewer)[key];
            let j = choose|j: int| 0 <= j < fewer.len() && fewer[j] == (key, value);
            assert(pairs[j] == (key, value));
        }
    }
}

/// The labels that an element puts in, one after the other.
spec fn label_pairs(before: Progress, primary: Primary) -> Seq<(Seq<char>, LabeledView)> {
    match primary {
        Primary::Root(node) => node_labels(node, Seq::empty()),
        Primary::ReferencedNode(node) => referenced_labels(node) + items_labels(
            node.payload.items@,
            body_path(before, primary),
        ),
        _ => Seq::empty(),
    }
}

/// The nodes that an element puts in, one after the other.
spec fn node_pairs(before: Progress, primary: Primary) -> Seq<(Seq<NodeNameView>, Arc<Node>)> {
    match primary {
        Primary::Root(node) => node_paths(node, Seq::empty()),
        Primary::ReferencedNode(node) => items_paths(
            node.payload.items@,
            body_path(before, primary),
        ),
        _ => Seq::empty(),
    }
}

proof fn lemma_step_context(before: Progress, primary: Primary)
    ensures
        before.after_primary(primary).known.context.labels == bind_all(
            before.known.context.labels,
            label_pairs(before, primary),
        ),
        before.after_primary(primary).known.context.nodes == bind_all(
            before.known.context.nodes,
            node_pairs(before, primary),
        ),
{
    reveal(Progress::after_primary);
    if let Primary::ReferencedNode(node) = primary {
        let known = before.known.context.with_labels(referenced_labels(node));
        crate::search_laws::lemma_where_references_lead(
            known,
            body_of(primary)->0,
            crate::finding_laws::outer_reference(primary)->0,
        );
        crate::tree::lemma_bind_all_more(
            before.known.context.labels,
            referenced_labels(node),
            items_labels(node.payload.items@, body_path(before, primary)),
        );
    }
}

/// The labels that an element puts in are those that are written in it.
proof fn lemma_label_pairs(
    before: Progress,
    primary: Primary,
    label: Seq<char>,
    labeled: LabeledView,
)
    ensures
        label_pairs(before, primary).contains((label, labeled)) == writes_label(
            primary,
            before.known.context,
            label,
            labeled,
        ),
{
    let pair = (label, labeled);
    lemma_known_at(before.known.context, primary);
    if let Some(body) = body_of(primary) {
        let path = path_of_element(before.known.context, primary);
        assert(path == body_path(before, primary));
        let own = match primary {
            Primary::Root(node) => own_labels(node, Seq::empty()),
            Primary::ReferencedNode(node) => referenced_labels(node),
            _ => Seq::empty(),
        };
        assert(label_pairs(before, primary) == own + items_labels(body.items@, path));
        lemma_in_both(own, items_labels(body.items@, path), pair);
        if own.len() > 0 {
            assert(own.len() == 1);
            assert(own.contains(pair) == (own[0] == pair));
        }
        if items_labels(body.items@, path).contains(pair) {
            let (places, i) = lemma_some_label_written(body, path, pair);
            assert(labeled_at(body, path, places, i) == Some((label, labeled)));
        }
        if exists|places: Seq<int>, i: int| #[trigger]
            labeled_at(body, path, places, i) == Some((label, labeled)) {
            let (places, i) = choose|places: Seq<int>, i: int| #[trigger]
                labeled_at(body, path, places, i) == Some((label, labeled));
            lemma_label_written(body, path, places, i);
        }
    }
}

/// The nodes that an element puts in are those that are written in it.
proof fn lemma_node_pairs(
    before: Progress,
    primary: Primary,
    path: Seq<NodeNameView>,
    written: Arc<Node>,
)
    ensures
        node_pairs(before, primary).contains((path, written)) == writes_node(
            primary,
            before.known.context,
            path,
            written,
        ),
{
    let pair = (path, written);
    lemma_known_at(before.known.context, primary);
    if let Some(body) = body_of(primary) {
        let start = path_of_element(before.known.context, primary);
        assert(start == body_path(before, primary));
        let own = match primary {
            Primary::Root(node) => seq![(Seq::<NodeNameView>::empty(), node)],
            _ => Seq::empty(),
        };
        assert(node_pairs(before, primary) =~= own + items_paths(body.items@, start));
        lemma_in_both(own, items_paths(body.items@, start), pair);
        if own.len() > 0 {
            assert(own.contains(pair) == (own[0] == pair));
            assert(path.len() == 0 ==> path =~= Seq::<NodeNameView>::empty());
        }
        if items_paths(body.items@, start).contains(pair) {
            let (places, i) = lemma_some_node_written(body, start, pair);
            assert(node_at_place(body, start, places, i) == Some((path, written)));
        }
        if exists|places: Seq<int>, i: int| #[trigger]
            node_at_place(body, start, places, i) == Some((path, written)) {
            let (places, i) = choose|places: Seq<int>, i: int| #[trigger]
                node_at_place(body, start, places, i) == Some((path, written));
            lemma_node_written(body, start, places, i);
        }
    }
}

/// Whether a label is written at anything in the element at `k` of a file that is analyzed.
pub open spec fn has_label_at(
    start: Progress,
    primaries: Seq<Primary>,
    k: int,
    label: Seq<char>,
) -> bool {
    0 <= k < primaries.len() && exists|labeled: LabeledView| #[trigger]
        writes_label(
            primaries[k],
            after_some(start, primaries, k).known.context,
            label,
            labeled,
        )
}

/// Whether a node is written with a path in the element at `k` of a file that is analyzed.
pub open spec fn has_node_at(
    start: Progress,
    primaries: Seq<Primary>,
    k: int,
    path: Seq<NodeNameView>,
) -> bool {
    0 <= k < primaries.len() && exists|node: Arc<Node>| #[trigger]
        writes_node(primaries[k], after_some(start, primaries, k).known.context, path, node)
}

/// Whether a label stands, once a file is known, at what it is written at in the last
/// element that it is written in, or if it is written in none at what it stood at before.
pub open spec fn is_label_known(
    start: Progress,
    primaries: Seq<Primary>,
    context: ContextView,
    label: Seq<char>,
) -> bool {
    &&& forall|k: int| #[trigger]
        has_label_at(start, primaries, k, label) ==> context.labels.contains_key(label)
    &&& context.labels.contains_key(label) ==> {
        ||| exists|k: int|
            {
                &&& #[trigger] has_label_at(start, primaries, k, label)
                &&& writes_label(
                    primaries[k],
                    after_some(start, primaries, k).known.context,
                    label,
                    context.labels[label],
                )
                &&& forall|later: int|
                    later > k ==> !#[trigger] has_label_at(start, primaries, later, label)
            }
        ||| {
            &&& start.known.context.labels.contains_key(label)
            &&& context.labels[label] == start.known.context.labels[label]
            &&& forall|k: int| !#[trigger] has_label_at(start, primaries, k, label)
        }
    }
    &&& start.known.context.labels.contains_key(label) ==> context.labels.contains_key(label)
}

/// Whether a path leads, once a file is known, to a node that is written with it in the last
/// element that one is written in, or if none is written to the one that it led to before.
pub open spec fn is_node_known(
    start: Progress,
    primaries: Seq<Primary>,
    context: ContextView,
    path: Seq<NodeNameView>,
) -> bool {
    &&& forall|k: int| #[trigger]
        has_node_at(start, primaries, k, path) ==> context.nodes.contains_key(path)
    &&& context.nodes.contains_key(path) ==> {
        ||| exists|k: int|
            {
                &&& #[trigger] has_node_at(start, primaries, k, path)
                &&& writes_node(
                    primaries[k],
                    after_some(start, primaries, k).known.context,
                    path,
                    context.nodes[path],
                )
                &&& forall|later: int|
                    later > k ==> !#[trigger] has_node_at(start, primaries, later, path)
            }
        ||| {
            &&& start.known.context.nodes.contains_key(path)
            &&& context.nodes[path] == start.known.context.nodes[path]
            &&& forall|k: int| !#[trigger] has_node_at(start, primaries, k, path)
        }
    }
    &&& start.known.context.nodes.contains_key(path) ==> context.nodes.contains_key(path)
}

pub(crate) proof fn lemma_label_known(start: Progress, primaries: Seq<Primary>, label: Seq<char>)
    ensures
        is_label_known(start, primaries, start.after_primaries(primaries).known.context, label),
    decreases primaries.len(),
{
    if primaries.len() > 0 {
        let fewer = primaries.drop_last();
        let last = primaries.len() - 1;
        let before = start.after_primaries(fewer);
        let pairs = label_pairs(before, primaries.last());
        let context = start.after_primaries(primaries).known.context;
        lemma_label_known(start, fewer, label);
        lemma_step_context(before, primaries.last());
        lemma_bound(before.known.context.labels, pairs, label);
        assert(primaries.take(last) =~= fewer);
        assert forall|k: int| 0 <= k < last implies #[trigger] has_label_at(
            start,
            primaries,
            k,
            label,
        ) == has_label_at(start, fewer, k, label) by {
            assert(primaries.take(k) =~= fewer.take(k));
            assert(primaries[k] == fewer[k]);
            assert(after_some(start, primaries, k) == after_some(start, fewer, k));
        }
        assert(has_label_at(start, primaries, last, label) == among(pairs, label)) by {
            if among(pairs, label) {
                lemma_label_pairs(before, primaries.last(), label, context.labels[label]);
            }
            if has_label_at(start, primaries, last, label) {
                let labeled = choose|labeled: LabeledView| #[trigger]
                    writes_label(primaries[last], before.known.context, label, labeled);
                lemma_label_pairs(before, primaries.last(), label, labeled);
                assert(pairs.contains((label, labeled)));
            }
        }
        if among(pairs, label) {
            lemma_label_pairs(before, primaries.last(), label, context.labels[label]);
            assert(has_label_at(start, primaries, last, label));
        } else {
            if context.labels.contains_key(label) {
                if exists|k: int|
                    {
                        &&& #[trigger] has_label_at(start, fewer, k, label)
                        &&& writes_label(
                            fewer[k],
                            after_some(start, fewer, k).known.context,
                            label,
                            context.labels[label],
                        )
                        &&& forall|later: int|
                            later > k ==> !#[trigger] has_label_at(start, fewer, later, label)
                    } {
                    let k = choose|k: int|
                        {
                            &&& #[trigger] has_label_at(start, fewer, k, label)
                            &&& writes_label(
                                fewer[k],
                                after_some(start, fewer, k).known.context,
                                label,
                                context.labels[label],
                            )
                            &&& forall|later: int|
                                later > k ==> !#[trigger] has_label_at(start, fewer, later, label)
                        };
                    assert(has_label_at(start, primaries, k, label));
                    assert(primaries.take(k) =~= fewer.take(k));
                    assert forall|later: int| later > k implies !#[trigger] has_label_at(
                        start,
                        primaries,
                        later,
                        label,
                    ) by {
                        if later < last {
                            assert(!has_label_at(start, fewer, later, label));
                        }
                    }
                } else {
                    assert forall|k: int| !#[trigger] has_label_at(
                        start,
                        primaries,
                        k,
                        label,
                    ) by {
                        if 0 <= k < last {
                            assert(!has_label_at(start, fewer, k, label));
                        }
                    }
                }
            }
        }
        assert forall|k: int| #[trigger]
            has_label_at(start, primaries, k, label) implies context.labels.contains_key(
            label,
        ) by {
            if k < last {
                assert(has_label_at(start, fewer, k, label));
            }
        }
    } else {
        assert forall|k: int| !#[trigger] has_label_at(start, primaries, k, label) by {}
    }
}

pub(crate) proof fn lemma_node_known(
    start: Progress,
    primaries: Seq<Primary>,
    path: Seq<NodeNameView>,
)
    ensures
        is_node_known(start, primaries, start.after_primaries(primaries).known.context, path),
    decreases primaries.len(),
{
    if primaries.len() > 0 {
        let fewer = primaries.drop_last();
        let last = primaries.len() - 1;
        let before = start.after_primaries(fewer);
        let pairs = node_pairs(before, primaries.last());
        let context = start.after_primaries(primaries).known.context;
        lemma_node_known(start, fewer, path);
        lemma_step_context(before, primaries.last());
        lemma_bound(before.known.context.nodes, pairs, path);
        assert(primaries.take(last) =~= fewer);
        assert forall|k: int| 0 <= k < last implies #[trigger] has_node_at(
            start,
            primaries,
            k,
            path,
        ) == has_node_at(start, fewer, k, path) by {
            assert(primaries.take(k) =~= fewer.take(k));
            assert(primaries[k] == fewer[k]);
            assert(after_some(start, primaries, k) == after_some(start, fewer, k));
        }
        assert(has_node_at(start, primaries, last, path) == among(pairs, path)) by {
            if among(pairs, path) {
                lemma_node_pairs(before, primaries.last(), path, context.nodes[path]);
            }
            if has_node_at(start, primaries, last, path) {
                let node = choose|node: Arc<Node>| #[trigger]
                    writes_node(primaries[last], before.known.context, path, node);
                lemma_node_pairs(before, primaries.last(), path, node);
                assert(pairs.contains((path, node)));
            }
        }
        if among(pairs, path) {
            lemma_node_pairs(before, primaries.last(), path, context.nodes[path]);
            assert(has_node_at(start, primaries, last, path));
        } else {
            if context.nodes.contains_key(path) {
                if exists|k: int|
                    {
                        &&& #[trigger] has_node_at(start, fewer, k, path)
                        &&& writes_node(
                            fewer[k],
                            after_some(start, fewer, k).known.context,
                            path,
                            context.nodes[path],
                        )
                        &&& forall|later: int|
                            later > k ==> !#[trigger] has_node_at(start, fewer, later, path)
                    } {
                    let k = choose|k: int|
                        {
                            &&& #[trigger] has_node_at(start, fewer, k, path)
                            &&& writes_node(
                                fewer[k],
                                after_some(start, fewer, k).known.context,
                                path,
                                context.nodes[path],
                            )
                            &&& forall|later: int|
                                later > k ==> !#[trigger] has_node_at(start, fewer, later, path)
                        };
                    assert(has_node_at(start, primaries, k, path));
                    assert(primaries.take(k) =~= fewer.take(k));
                    assert forall|later: int| later > k implies !#[trigger] has_node_at(
                        start,
                        primaries,
                        later,
                        path,
                    ) by {
                        if later < last {
                            assert(!has_node_at(start, fewer, later, path));
                        }
                    }
                } else {
                    assert forall|k: int| !#[trigger] has_node_at(start, primaries, k, path) by {
                        if 0 <= k < last {
                            assert(!has_node_at(start, fewer, k, path));
                        }
                    }
                }
            }
        }
        assert forall|k: int| #[trigger]
            has_node_at(start, primaries, k, path) implies context.nodes.contains_key(path) by {
            if k < last {
                assert(has_node_at(start, fewer, k, path));
            }
        }
    } else {
        assert forall|k: int| !#[trigger] has_node_at(start, primaries, k, path) by {}
    }
}

/// After the analysis of a file, each label that is written anywhere in the file stands at
/// something that it is written at, in the last element in which it is written; all other
/// labels stand at what they stood at before. The same holds of paths and nodes.
pub proof fn lemma_file_is_known(
    analysis: &mut Analysis,
    file: &DtsFile,
    file_type: FileType,
    project: &Project,
    loads: &[LoadOutcome],
    r: AnalysisResult,
    label: Seq<char>,
    path: Seq<NodeNameView>,
)
    requires
        call_ensures(Analysis::analyze_file, (analysis, file, file_type, project, loads), r),
    ensures
        ({
            let start = file_start(old(analysis)@, file.source, file_type, project@, loads@);
            &&& is_label_known(start, file.elements@, final(analysis)@.context, label)
            &&& is_node_known(start, file.elements@, final(analysis)@.context, path)
        }),
{
    let start = file_start(old(analysis)@, file.source, file_type, project@, loads@);
    lemma_label_known(start, file.elements@, label);
    lemma_node_known(start, file.elements@, path);
}

/// Whether each node that is known under a path, other than that of the root node, has the
/// last name of the path.
pub open spec fn nodes_are_named(context: ContextView) -> bool {
    forall|path: Seq<NodeNameView>| #[trigger]
        context.nodes.contains_key(path) && path.len() > 0 ==> context.nodes[path].name.item@
            == path.last()
}

/// An analysis starts without a label and without a node.
pub proof fn lemma_nothing_known_at_first(
    include_cache: Option<KeyedMap<String, FileId>>,
    r: Analysis,
)
    requires
        call_ensures(Analysis::new, (include_cache,), r),
    ensures
        forall|label: Seq<char>| !#[trigger] r@.context.labels.contains_key(label),
        forall|path: Seq<NodeNameView>| !#[trigger] r@.context.nodes.contains_key(path),
        forall|from: FileId, to: FileId| !#[trigger] r@.imports.contains((from, to)),
        nodes_are_named(r@.context),
{
}

/// The analysis of a file keeps it so that each node has the last name of its path.
pub proof fn lemma_nodes_stay_named(
    analysis: &mut Analysis,
    file: &DtsFile,
    file_type: FileType,
    project: &Project,
    loads: &[LoadOutcome],
    r: AnalysisResult,
)
    requires
        call_ensures(Analysis::analyze_file, (analysis, file, file_type, project, loads), r),
        nodes_are_named(old(analysis)@.context),
    ensures
        nodes_are_named(final(analysis)@.context),
{
    let start = file_start(old(analysis)@, file.source, file_type, project@, loads@);
    lemma_named_after(start, file.elements@);
}

pub(crate) proof fn lemma_named_after(start: Progress, primaries: Seq<Primary>)
    requires
        nodes_are_named(start.known.context),
    ensures
        nodes_are_named(start.after_primaries(primaries).known.context),
{
    let context = start.after_primaries(primaries).known.context;
    assert forall|path: Seq<NodeNameView>| #[trigger]
        context.nodes.contains_key(path) && path.len() > 0 implies context.nodes[path].name.item@
        == path.last() by {
        lemma_node_known(start, primaries, path);
        if exists|k: int|
            {
                &&& #[trigger] has_node_at(start, primaries, k, path)
                &&& writes_node(
                    primaries[k],
                    after_some(start, primaries, k).known.context,
                    path,
                    context.nodes[path],
                )
            } {
        } else {
            assert(start.known.context.nodes.contains_key(path));
        }
    }
}

/// An analysis of a file without elements comes to know nothing. One element more at the end
/// of a file is one import more if it includes a file that was found, unless that leads back
/// to the including file; and no import more otherwise.
pub proof fn lemma_imports_go_on(
    analysis: &mut Analysis,
    further: &mut Analysis,
    file: &DtsFile,
    longer: &DtsFile,
    file_type: FileType,
    project: &Project,
    loads: &[LoadOutcome],
    requests: Vec<String>,
    primary: Primary,
    r: AnalysisResult,
    longer_result: AnalysisResult,
)
    requires
        call_ensures(Analysis::analyze_file, (analysis, file, file_type, project, loads), r),
        call_ensures(
            Analysis::analyze_file,
            (further, longer, file_type, project, loads),
            longer_result,
        ),
        call_ensures(load_requests, (file,), requests),
        old(analysis)@ == old(further)@,
        longer.source == file.source,
        longer.elements@ == file.elements@.push(primary),
    ensures
        file.elements@.len() == 0 ==> final(analysis)@ == old(analysis)@,
        final(further)@.imports == match primary {
            Primary::Directive(AnyDirective::Include(_)) => match loads@[requests@.len() as int] {
                Ok(loaded) if !leads_back(
                    final(analysis)@.imports,
                    loaded.path,
                    file.source,
                ) => final(analysis)@.imports.insert((file.source, loaded.path)),
                _ => final(analysis)@.imports,
            },
            _ => final(analysis)@.imports,
        },
        final(analysis)@.context.includes == old(analysis)@.context.includes,
{
    let start = file_start(old(analysis)@, file.source, file_type, project@, loads@);
    let end = start.after_primaries(file.elements@);
    assert(longer.elements@.drop_last() =~= file.elements@);
    assert(start.after_primaries(longer.elements@) == end.after_primary(primary));
    reveal(Progress::after_primary);
    lemma_on_the_way(start, file.elements@);
    lemma_includes_stay(start, file.elements@);
    assert(texts(requests@).len() == requests@.len());
    if let Primary::Directive(AnyDirective::Include(_)) = primary {
        if let Ok(loaded) = loads@[requests@.len() as int] {
            let importers = seq![file.source];
            lemma_leads_back_reaches(end.known.imports, loaded.path, file.source);
            assert(importers[0] == file.source);
            assert(closes_circle(end.known.imports, loaded.path, importers) == leads_back(
                end.known.imports,
                loaded.path,
                file.source,
            ));
            assert(end.known.imports.union(import_edges(loaded.path, importers))
                =~= end.known.imports.insert((file.source, loaded.path)));
        }
    }
}

pub(crate) proof fn lemma_includes_stay(start: Progress, primaries: Seq<Primary>)
    ensures
        start.after_primaries(primaries).known.context.includes == start.known.context.includes,
    decreases primaries.len(),
{
    if primaries.len() > 0 {
        lemma_includes_stay(start, primaries.drop_last());
        reveal(Progress::after_primary);
    }
}

} // verus!
