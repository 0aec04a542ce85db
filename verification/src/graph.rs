//! Which files lead to which others.
use crate::data::FileId;
use std::collections::HashSet;
use vstd::prelude::*;

verus! {

/// Pairs of files: the first of a pair leads to the second.
pub type Edges = Set<(FileId, FileId)>;

/// Something that holds a graph of files.
pub trait FileGraph {
    spec fn edges(&self) -> Edges;

    proof fn lemma_edges_finite(&self)
        ensures
            self.edges().finite(),
    ;

    /// The files that a file leads to, or `None` if there are none.
    fn successors(&self, file: FileId) -> (r: Option<&Vec<FileId>>)
        ensures
            match r {
                Some(files) => forall|next: FileId|
                    #![trigger files@.contains(next)]
                    files@.contains(next) == self.edges().contains((file, next)),
                None => forall|next: FileId| !(#[trigger] self.edges().contains((file, next))),
            },
    ;
}

/// The edges that a list of successors for each file describes.
pub open spec fn edges_of(lists: Map<FileId, Seq<FileId>>) -> Edges {
    Set::new(
        |edge: (FileId, FileId)| lists.contains_key(edge.0) && lists[edge.0].contains(edge.1),
    )
}

/// Finitely many lists describe finitely many edges.
pub proof fn lemma_edges_of_finite(lists: Map<FileId, Seq<FileId>>)
    requires
        lists.dom().finite(),
    ensures
        edges_of(lists).finite(),
    decreases lists.dom().len(),
{
    if lists.dom().len() == 0 {
        assert(lists.dom() =~= Set::empty());
        assert(edges_of(lists) =~= Set::empty());
    } else {
        let file = lists.dom().choose();
        let fewer = lists.remove(file);
        lemma_edges_of_finite(fewer);
        let nexts = lists[file].to_set();
        vstd::seq_lib::seq_to_set_is_finite(lists[file]);
        nexts.lemma_map_finite(|next: FileId| (file, next));
        let out = nexts.map(|next: FileId| (file, next));
        assert(edges_of(lists) =~= edges_of(fewer).union(out)) by {
            assert forall|edge: (FileId, FileId)| edges_of(lists).contains(edge) implies edges_of(
                fewer,
            ).union(out).contains(edge) by {
                if edge.0 == file {
                    assert(nexts.contains(edge.1));
                    assert(out.contains((file, edge.1)));
                } else {
                    assert(fewer.contains_key(edge.0));
                }
            }
        }
    }
}

/// Whether `walk` goes from file to file along edges.
pub open spec fn is_walk(edges: Edges, walk: Seq<FileId>) -> bool {
    forall|i: int| 0 <= i < walk.len() - 1 ==> edges.contains((#[trigger] walk[i], walk[i + 1]))
}

/// Whether `walk` is a walk from `from` to `to`.
pub open spec fn walk_between(
    edges: Edges,
    walk: Seq<FileId>,
    from: FileId,
    to: FileId,
) -> bool {
    &&& walk.len() > 0
    &&& walk[0] == from
    &&& walk.last() == to
    &&& is_walk(edges, walk)
}

/// Whether `from` leads to `to`, at once or by way of other files. Each file
/// leads to itself.
pub open spec fn reaches(edges: Edges, from: FileId, to: FileId) -> bool {
    exists|walk: Seq<FileId>| walk_between(edges, walk, from, to)
}

/// Each file leads to itself.
pub proof fn lemma_reaches_itself(edges: Edges, file: FileId)
    ensures
        reaches(edges, file, file),
{
    assert(walk_between(edges, seq![file], file, file));
}

/// What a reached file leads to is reached too.
pub proof fn lemma_reaches_next(edges: Edges, from: FileId, via: FileId, to: FileId)
    requires
        reaches(edges, from, via),
        edges.contains((via, to)),
    ensures
        reaches(edges, from, to),
{
    let walk = choose|walk: Seq<FileId>| walk_between(edges, walk, from, via);
    let longer = walk.push(to);
    assert forall|i: int| 0 <= i < longer.len() - 1 implies edges.contains(
        (#[trigger] longer[i], longer[i + 1]),
    ) by {
        if i < walk.len() - 1 {
            assert(edges.contains((walk[i], walk[i + 1])));
        }
    }
    assert(walk_between(edges, longer, from, to));
}

/// Who reaches a file reaches what it reaches.
pub proof fn lemma_reaches_transitive(edges: Edges, from: FileId, via: FileId, to: FileId)
    requires
        reaches(edges, from, via),
        reaches(edges, via, to),
    ensures
        reaches(edges, from, to),
{
    let walk = choose|walk: Seq<FileId>| walk_between(edges, walk, via, to);
    lemma_reaches_along(edges, from, via, walk, to);
}

proof fn lemma_reaches_along(
    edges: Edges,
    from: FileId,
    via: FileId,
    walk: Seq<FileId>,
    to: FileId,
)
    requires
        reaches(edges, from, via),
        walk_between(edges, walk, via, to),
    ensures
        reaches(edges, from, to),
    decreases walk.len(),
{
    if walk.len() > 1 {
        lemma_walk_shorter(edges, walk, via, to);
        let before = walk[walk.len() - 2];
        lemma_reaches_along(edges, from, via, walk.drop_last(), before);
        lemma_reaches_next(edges, from, before, to);
    }
}

/// A walk without its last step is a walk.
pub proof fn lemma_walk_shorter(edges: Edges, walk: Seq<FileId>, from: FileId, to: FileId)
    requires
        walk_between(edges, walk, from, to),
        walk.len() > 1,
    ensures
        walk_between(edges, walk.drop_last(), from, walk[walk.len() - 2]),
        edges.contains((walk[walk.len() - 2], to)),
{
    let shorter = walk.drop_last();
    assert forall|i: int| 0 <= i < shorter.len() - 1 implies edges.contains(
        (#[trigger] shorter[i], shorter[i + 1]),
    ) by {
        assert(edges.contains((walk[i], walk[i + 1])));
    }
    assert(edges.contains((walk[walk.len() - 2], walk[walk.len() - 1])));
}

/// Files that are closed under what they lead to hold all that one of them
/// reaches.
pub proof fn lemma_closed_holds_reached(
    edges: Edges,
    files: Set<FileId>,
    walk: Seq<FileId>,
    from: FileId,
    to: FileId,
)
    requires
        walk_between(edges, walk, from, to),
        files.contains(from),
        forall|file: FileId, next: FileId|
            files.contains(file) && #[trigger] edges.contains((file, next)) ==> files.contains(
                next,
            ),
    ensures
        files.contains(to),
    decreases walk.len(),
{
    if walk.len() > 1 {
        lemma_walk_shorter(edges, walk, from, to);
        lemma_closed_holds_reached(
            edges,
            files,
            walk.drop_last(),
            from,
            walk[walk.len() - 2],
        );
    }
}

/// Marks files as seen, and puts those that were not on a stack.
fn push_unseen(files: &Vec<FileId>, seen: &mut HashSet<FileId>, stack: &mut Vec<FileId>)
    requires
        old(seen)@.finite(),
    ensures
        final(seen)@.finite(),
        forall|file: FileId| #[trigger]
            final(seen)@.contains(file) == (old(seen)@.contains(file) || files@.contains(file)),
        forall|file: FileId| #[trigger]
            final(stack)@.contains(file) == (old(stack)@.contains(file) || (files@.contains(file)
                && !old(seen)@.contains(file))),
        final(seen)@.len() >= old(seen)@.len(),
        final(seen)@.len() == old(seen)@.len() ==> final(stack)@ == old(stack)@,
{
    let mut i: usize = 0;
    while i < files.len()
        invariant
            i <= files@.len(),
            seen@.finite(),
            forall|file: FileId| #[trigger]
                seen@.contains(file) == (old(seen)@.contains(file) || files@.take(
                    i as int,
                ).contains(file)),
            forall|file: FileId| #[trigger]
                stack@.contains(file) == (old(stack)@.contains(file) || (files@.take(
                    i as int,
                ).contains(file) && !old(seen)@.contains(file))),
            seen@.len() >= old(seen)@.len(),
            seen@.len() == old(seen)@.len() ==> stack@ == old(stack)@,
        decreases files@.len() - i,
    {
        let file = files[i];
        proof {
            assert(files@.take(i + 1) =~= files@.take(i as int).push(file));
            assert forall|f: FileId| #[trigger]
                files@.take(i + 1).contains(f) == (files@.take(i as int).contains(f) || f
                    == file) by {
                vstd::seq_lib::lemma_seq_contains_after_push(files@.take(i as int), file, f);
            }
        }
        if !seen.contains(&file) {
            let ghost before = stack@;
            seen.insert(file);
            stack.push(file);
            proof {
                assert forall|f: FileId| #[trigger]
                    stack@.contains(f) == (before.contains(f) || f == file) by {
                    vstd::seq_lib::lemma_seq_contains_after_push(before, file, f);
                }
            }
        }
        i += 1;
    }
    assert(files@.take(i as int) =~= files@);
}

/// All files that `from` reaches.
pub fn reached<G: FileGraph>(graph: &G, from: FileId) -> (r: HashSet<FileId>)
    ensures
        forall|file: FileId| r@.contains(file) == reaches(graph.edges(), from, file),
{
    let mut seen: HashSet<FileId> = HashSet::new();
    let mut stack: Vec<FileId> = Vec::new();
    seen.insert(from);
    stack.push(from);
    let ghost edges = graph.edges();
    let ghost all = edges.map(|edge: (FileId, FileId)| edge.1).insert(from);
    proof {
        graph.lemma_edges_finite();
        edges.lemma_map_finite(|edge: (FileId, FileId)| edge.1);
        lemma_reaches_itself(edges, from);
        assert(stack@[0] == from);
        assert forall|file: FileId, next: FileId| #[trigger]
            edges.contains((file, next)) implies all.contains(next) by {
            let f = |edge: (FileId, FileId)| edge.1;
            assert(f((file, next)) == next);
            assert(edges.map(f).contains(next));
        }
    }
    loop
        invariant
            edges == graph.edges(),
            all.finite(),
            forall|file: FileId, next: FileId| #[trigger]
                edges.contains((file, next)) ==> all.contains(next),
            seen@.finite(),
            seen@.subset_of(all),
            seen@.contains(from),
            forall|file: FileId| #[trigger] seen@.contains(file) ==> reaches(edges, from, file),
            forall|i: int| 0 <= i < stack@.len() ==> seen@.contains(#[trigger] stack@[i]),
            forall|file: FileId, next: FileId|
                seen@.contains(file) && !stack@.contains(file) && #[trigger] edges.contains(
                    (file, next),
                ) ==> seen@.contains(next),
        ensures
            forall|file: FileId, next: FileId|
                seen@.contains(file) && #[trigger] edges.contains((file, next)) ==> seen@.contains(
                    next,
                ),
        decreases all.len() - seen@.len(), stack@.len(),
    {
        proof {
            vstd::set_lib::lemma_len_subset(seen@, all);
        }
        let ghost before = stack@;
        let file = match stack.pop() {
            Some(file) => file,
            None => {
                break;
            },
        };
        proof {
            assert(before == stack@.push(file));
            assert(before[before.len() - 1] == file);
            assert(seen@.contains(file));
        }
        let ghost rest = stack@;
        let ghost seen_before = seen@;
        if let Some(files) = graph.successors(file) {
            push_unseen(files, &mut seen, &mut stack);
            proof {
                assert forall|next: FileId| files@.contains(next) implies reaches(
                    edges,
                    from,
                    next,
                ) && all.contains(next) by {
                    assert(edges.contains((file, next)));
                    lemma_reaches_next(edges, from, file, next);
                }
                assert forall|next: FileId| #[trigger]
                    edges.contains((file, next)) implies seen@.contains(next) by {
                    assert(files@.contains(next) == edges.contains((file, next)));
                }
                assert forall|i: int| 0 <= i < stack@.len() implies seen@.contains(
                    #[trigger] stack@[i],
                ) by {
                    assert(stack@.contains(stack@[i]));
                    if rest.contains(stack@[i]) {
                        let k = choose|k: int| 0 <= k < rest.len() && rest[k] == stack@[i];
                        assert(before[k] == stack@[i]);
                    }
                }
            }
        }
        proof {
            vstd::set_lib::lemma_len_subset(seen@, all);
            assert forall|f: FileId, next: FileId|
                seen@.contains(f) && !stack@.contains(f) && #[trigger] edges.contains(
                    (f, next),
                ) implies seen@.contains(next) by {
                if f != file {
                    assert(seen_before.contains(f));
                    if before.contains(f) {
                        let k = choose|k: int| 0 <= k < before.len() && before[k] == f;
                        assert(rest[k] == f);
                        assert(rest.contains(f));
                    }
                }
            }
        }
    }
    proof {
        assert forall|file: FileId| reaches(edges, from, file) implies seen@.contains(file) by {
            let walk = choose|walk: Seq<FileId>| walk_between(edges, walk, from, file);
            lemma_closed_holds_reached(edges, seen@, walk, from, file);
        }
    }
    seen
}

} // verus!
