//! A guard against files that import each other in a circle.
use crate::data::FileId;
use crate::graph::{
    edges_of, lemma_edges_of_finite, lemma_reaches_itself, lemma_reaches_next,
    lemma_reaches_transitive, lemma_walk_shorter, reached, reaches, walk_between, Edges, FileGraph,
};
use std::collections::HashMap;
use vstd::prelude::*;

verus! {

/// An import was refused because it would close a circle: `file` leads to
/// `importer`, which wants to import it.
#[derive(Clone, Copy, PartialEq, Eq, Debug, Structural)]
pub struct CyclicDependency {
    pub file: FileId,
    pub importer: FileId,
}

/// No file leads back to itself by way of at least one edge.
pub open spec fn acyclic(edges: Edges) -> bool {
    forall|from: FileId, to: FileId| #[trigger] edges.contains((from, to)) ==> !reaches(
        edges,
        to,
        from,
    )
}

/// The edges from each of some importers to a file.
pub open spec fn import_edges(file: FileId, importers: Seq<FileId>) -> Edges {
    Set::new(|edge: (FileId, FileId)| edge.1 == file && importers.contains(edge.0))
}

/// Whether importing `file` would close a circle.
pub open spec fn closes_circle(edges: Edges, file: FileId, importers: Seq<FileId>) -> bool {
    exists|i: int| 0 <= i < importers.len() && reaches(edges, file, #[trigger] importers[i])
}

/// The lists of a map of vectors.
spec fn lists(map: Map<FileId, Vec<FileId>>) -> Map<FileId, Seq<FileId>> {
    map.map_values(|files: Vec<FileId>| files@)
}

/// The imports so far. They never form a circle.
pub struct ImportGuard {
    imports: HashMap<FileId, Vec<FileId>>,
}

impl View for ImportGuard {
    type V = Edges;

    closed spec fn view(&self) -> Edges {
        edges_of(lists(self.imports@))
    }
}

impl FileGraph for ImportGuard {
    open spec fn edges(&self) -> Edges {
        self@
    }

    proof fn lemma_edges_finite(&self) {
        assert(lists(self.imports@).dom() =~= self.imports@.dom());
        lemma_edges_of_finite(lists(self.imports@));
    }

    fn successors(&self, file: FileId) -> (r: Option<&Vec<FileId>>) {
        self.imports.get(&file)
    }
}

impl ImportGuard {
    /// A guard that knows of no import.
    pub fn new() -> (r: ImportGuard)
        ensures
            r@ == Set::<(FileId, FileId)>::empty(),
            acyclic(r@),
    {
        let r = ImportGuard { imports: HashMap::new() };
        assert(r@ =~= Set::<(FileId, FileId)>::empty());
        r
    }

    /// Notes that each of `importers` imports `file`, unless that would close a
    /// circle of imports.
    pub fn add(&mut self, file: FileId, importers: &[FileId]) -> (r: Result<(), CyclicDependency>)
        ensures
            r is Err <==> closes_circle(old(self)@, file, importers@),
            r is Err ==> final(self)@ == old(self)@,
            r matches Err(err) ==> err.file == file && exists|i: int|
                0 <= i < importers@.len() && err.importer == importers@[i] && reaches(
                    old(self)@,
                    file,
                    importers@[i],
                ) && forall|j: int|
                    0 <= j < i ==> !reaches(old(self)@, file, #[trigger] importers@[j]),
            r is Ok ==> final(self)@ == old(self)@.union(import_edges(file, importers@)),
            acyclic(old(self)@) ==> acyclic(final(self)@),
    {
        let led_to = reached(&*self, file);
        let mut i: usize = 0;
        while i < importers.len()
            invariant
                i <= importers@.len(),
                *self == *old(self),
                forall|f: FileId| led_to@.contains(f) == reaches(self@, file, f),
                forall|j: int| 0 <= j < i ==> !reaches(self@, file, #[trigger] importers@[j]),
            decreases importers@.len() - i,
        {
            if led_to.contains(&importers[i]) {
                return Err(CyclicDependency { file, importer: importers[i] });
            }
            i += 1;
        }
        let mut k: usize = 0;
        proof {
            assert(self@ =~= old(self)@.union(import_edges(file, importers@.take(0))));
        }
        while k < importers.len()
            invariant
                k <= importers@.len(),
                self@ == old(self)@.union(import_edges(file, importers@.take(k as int))),
            decreases importers@.len() - k,
        {
            self.add_one(file, importers[k]);
            proof {
                let taken = importers@.take(k as int);
                let importer = importers@[k as int];
                assert(importers@.take(k + 1) =~= taken.push(importer));
                assert forall|f: FileId| #[trigger]
                    taken.push(importer).contains(f) == (taken.contains(f) || f == importer) by {
                    vstd::seq_lib::lemma_seq_contains_after_push(taken, importer, f);
                }
                assert(self@ =~= old(self)@.union(import_edges(file, importers@.take(k + 1))));
            }
            k += 1;
        }
        proof {
            assert(importers@.take(k as int) =~= importers@);
            if acyclic(old(self)@) {
                lemma_import_keeps_acyclic(old(self)@, file, importers@);
            }
        }
        Ok(())
    }

    /// Notes one import.
    fn add_one(&mut self, file: FileId, importer: FileId)
        ensures
            final(self)@ == old(self)@.insert((importer, file)),
    {
        let ghost before = self.imports@;
        let mut files = match self.imports.remove(&importer) {
            Some(files) => files,
            None => Vec::new(),
        };
        let ghost files_before = files@;
        files.push(file);
        self.imports.insert(importer, files);
        proof {
            assert forall|f: FileId| #[trigger]
                files@.contains(f) == (files_before.contains(f) || f == file) by {
                vstd::seq_lib::lemma_seq_contains_after_push(files_before, file, f);
            }
            assert(self@ =~= old(self)@.insert((importer, file)));
        }
    }
}

/// What a file reaches once imports of `file` are noted: what it reached before,
/// and, if it reached one of the importers, what `file` reached before.
proof fn lemma_reaches_with_import(
    edges: Edges,
    file: FileId,
    importers: Seq<FileId>,
    walk: Seq<FileId>,
    from: FileId,
    to: FileId,
)
    requires
        walk_between(edges.union(import_edges(file, importers)), walk, from, to),
    ensures
        reaches(edges, from, to) || (reaches(edges, file, to) && exists|i: int|
            0 <= i < importers.len() && reaches(edges, from, #[trigger] importers[i])),
    decreases walk.len(),
{
    let more = edges.union(import_edges(file, importers));
    if walk.len() == 1 {
        lemma_reaches_itself(edges, from);
    } else {
        let via = walk[walk.len() - 2];
        lemma_walk_shorter(more, walk, from, to);
        lemma_reaches_with_import(edges, file, importers, walk.drop_last(), from, via);
        lemma_reaches_itself(edges, file);
        if edges.contains((via, to)) {
            if reaches(edges, from, via) {
                lemma_reaches_next(edges, from, via, to);
            }
            if reaches(edges, file, via) {
                lemma_reaches_next(edges, file, via, to);
            }
        } else {
            let i = choose|i: int| 0 <= i < importers.len() && importers[i] == via;
            assert(importers[i] == via);
        }
    }
}

/// An import that closes no circle keeps the imports free of circles.
pub proof fn lemma_import_keeps_acyclic(edges: Edges, file: FileId, importers: Seq<FileId>)
    requires
        acyclic(edges),
        !closes_circle(edges, file, importers),
    ensures
        acyclic(edges.union(import_edges(file, importers))),
{
    let more = edges.union(import_edges(file, importers));
    assert forall|from: FileId, to: FileId| #[trigger]
        more.contains((from, to)) implies !reaches(more, to, from) by {
        if reaches(more, to, from) {
            let walk = choose|walk: Seq<FileId>| walk_between(more, walk, to, from);
            lemma_reaches_with_import(edges, file, importers, walk, to, from);
            if !edges.contains((from, to)) {
                let k = choose|k: int| 0 <= k < importers.len() && importers[k] == from;
                assert(!reaches(edges, file, importers[k]));
            } else {
                assert(!reaches(edges, to, from));
                let i = choose|i: int|
                    0 <= i < importers.len() && reaches(edges, to, #[trigger] importers[i]);
                lemma_reaches_next(edges, file, from, to);
                lemma_reaches_transitive(edges, file, to, importers[i]);
            }
        }
    }
}

} // verus!
