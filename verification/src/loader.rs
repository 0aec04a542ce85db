//! Finding the files that source files name.
use crate::data::{FileId, IoError};
use crate::text::texts;
use std::sync::Arc;
use vstd::prelude::*;
use vstd::rwlock::{RwLock, RwLockPredicate};

verus! {

/// A file that was found: the path by which the loader gave it, and its canonical
/// path if it has one.
#[derive(Clone, Copy, PartialEq, Eq, Debug, Structural)]
pub struct LoadedFile {
    pub path: FileId,
    pub canonical: Option<FileId>,
}

/// What came of the search for a file.
pub type LoadOutcome = Result<LoadedFile, IoError>;

/// What is to be done after a loader has learned that a file has changed.
#[derive(Clone, Copy, PartialEq, Eq, Debug, Structural)]
pub enum IncludeLoaderNotifyAction {
    Nothing,
    Reset,
}

/// Something that finds the files that source files name.
pub trait IncludeLoader: Sized {
    /// Finds the file of a name that stands in the file `relative_to`.
    fn load(&mut self, relative_to: FileId, name: &str) -> (r: Result<FileId, IoError>);

    /// Learns that a file has changed.
    fn notify(&mut self, _path: FileId) -> (r: IncludeLoaderNotifyAction)
        default_ensures
            r == IncludeLoaderNotifyAction::Nothing,
            *final(self) == *old(self),
    {
        IncludeLoaderNotifyAction::Nothing
    }

    /// Learns where to search.
    fn set_include_paths(&mut self, include_paths: Vec<String>);

    /// Which files the loader wants to learn of when they change.
    fn watch_patterns(&self) -> (r: Option<Vec<String>>)
        default_ensures
            r is None,
    {
        None
    }
}

/// Lets a loader find the file of a name that stands in the file `relative_to`.
pub fn load_by<L: IncludeLoader>(
    loader: &mut L,
    relative_to: FileId,
    file_name: &str,
) -> (r: Result<FileId, IoError>)
    ensures
        exists|asked: &mut L| #[trigger]
            call_ensures(L::load, (asked, relative_to, file_name), r) && *asked == *old(loader)
                && *final(asked) == *final(loader),
{
    loader.load(relative_to, file_name)
}

/// Whether a number is the place of something among `count` things.
pub open spec fn is_below(place: int, count: int) -> bool {
    0 <= place < count
}

/// Lets a loader find the files of some names that stand in the file `relative_to`. It is
/// asked once for each name, one after the other.
pub fn load_all_by<L: IncludeLoader>(
    loader: &mut L,
    relative_to: FileId,
    file_names: &Vec<String>,
) -> (r: Vec<Result<FileId, IoError>>)
    ensures
        r@.len() == file_names@.len(),
        exists|states: Seq<L>|
            {
                &&& #[trigger] states.len() == file_names@.len() + 1
                &&& states[0] == *old(loader)
                &&& states[file_names@.len() as int] == *final(loader)
                &&& forall|i: int|
                    #[trigger] is_below(i, r@.len() as int) ==> exists|
                        asked: &mut L,
                        name: &str,
                    | #[trigger]
                        call_ensures(L::load, (asked, relative_to, name), r@[i]) && name@
                            == file_names@[i]@ && *asked == states[i] && *final(asked)
                            == states[i + 1]
            },
{
    let mut r: Vec<Result<FileId, IoError>> = Vec::new();
    let ghost mut states: Seq<L> = seq![*loader];
    let mut i: usize = 0;
    while i < file_names.len()
        invariant
            i <= file_names@.len(),
            r@.len() == i,
            states.len() == i + 1,
            states[0] == *old(loader),
            states[i as int] == *loader,
            forall|k: int|
                #[trigger] is_below(k, i as int) ==> exists|asked: &mut L, name: &str| #[trigger]
                    call_ensures(L::load, (asked, relative_to, name), r@[k]) && name@
                        == file_names@[k]@ && *asked == states[k] && *final(asked) == states[k + 1],
        decreases file_names@.len() - i,
    {
        let ghost before = r@;
        let ghost passed = states;
        let outcome = load_by(loader, relative_to, file_names[i].as_str());
        r.push(outcome);
        proof {
            states = states.push(*loader);
            assert(r@[i as int] == outcome);
            assert(exists|asked: &mut L, name: &str| #[trigger]
                call_ensures(L::load, (asked, relative_to, name), r@[i as int]) && name@
                    == file_names@[i as int]@ && *asked == states[i as int] && *final(asked)
                    == states[i + 1]);
            assert forall|k: int|
                #[trigger] is_below(k, i + 1) implies exists|asked: &mut L, name: &str| #[trigger]
                call_ensures(L::load, (asked, relative_to, name), r@[k]) && name@
                    == file_names@[k]@ && *asked == states[k] && *final(asked) == states[k + 1] by {
                if k < i {
                    assert(is_below(k, i as int));
                    assert(before[k] == r@[k]);
                    assert(states[k] == passed[k]);
                    assert(states[k + 1] == passed[k + 1]);
                }
            }
        }
        i += 1;
    }
    r
}

/// Tells a loader that a file has changed.
pub fn notify_by<L: IncludeLoader>(loader: &mut L, path: FileId) -> (r: IncludeLoaderNotifyAction)
    ensures
        exists|told: &mut L| #[trigger]
            call_ensures(L::notify, (told, path), r) && *told == *old(loader) && *final(told)
                == *final(loader),
{
    loader.notify(path)
}

/// Tells a loader where to search.
pub fn set_include_paths_by<L: IncludeLoader>(loader: &mut L, include_paths: Vec<String>)
    ensures
        exists|told: &mut L| #[trigger]
            call_ensures(L::set_include_paths, (told, include_paths), ()) && *told == *old(loader)
                && *final(told) == *final(loader),
{
    loader.set_include_paths(include_paths)
}

/// What holds of a loader behind a guard at all times. A user may hand over any loader,
/// and any call may change it.
pub struct GivenLoader<L> {
    /// The loader that the guard was made for, as it was then.
    pub given: Ghost<L>,
}

impl<L> RwLockPredicate<L> for GivenLoader<L> {
    open spec fn inv(self, loader: L) -> bool {
        true
    }
}

/// The lock behind which a loader stands.
pub type LoaderLock<L> = RwLock<L, GivenLoader<L>>;

/// A guard of a loader. All clones of a guard ask one loader, one after the other. What the
/// loader is like when a guard asks it depends on what all the clones have asked before. A
/// loader that panics is never asked again: its guards wait.
#[verifier::reject_recursive_types(L)]
pub struct IncludeLoaderGuard<L: IncludeLoader> {
    inner: Arc<LoaderLock<L>>,
}

impl<L: IncludeLoader> Clone for IncludeLoaderGuard<L> {
    /// A guard of the same loader.
    fn clone(&self) -> (r: IncludeLoaderGuard<L>)
        ensures
            r.shared() == self.shared(),
    {
        IncludeLoaderGuard { inner: self.inner.clone() }
    }
}

impl<L: IncludeLoader> IncludeLoaderGuard<L> {
    /// The lock through which all clones of this guard ask their loader.
    pub closed spec fn shared(&self) -> LoaderLock<L> {
        *self.inner
    }

    /// The loader that this guard, or the one that it is a clone of, was made for.
    pub open spec fn given(&self) -> L {
        self.shared().pred().given@
    }

    pub fn new(loader: L) -> (r: IncludeLoaderGuard<L>)
        ensures
            r.given() == loader,
    {
        let ghost given = loader;
        let lock = RwLock::new(loader, Ghost(GivenLoader { given: Ghost(given) }));
        IncludeLoaderGuard { inner: Arc::new(lock) }
    }

    /// Finds the file of a name that stands in the file `relative_to`, by the loader that
    /// all clones share.
    pub fn load(&mut self, relative_to: FileId, file_name: &str) -> (r: Result<FileId, IoError>)
        ensures
            final(self).shared() == old(self).shared(),
            exists|loader: &mut L| #[trigger]
                call_ensures(L::load, (loader, relative_to, file_name), r),
    {
        let (mut loader, handle) = self.inner.acquire_write();
        let r = load_by(&mut loader, relative_to, file_name);
        handle.release_write(loader);
        r
    }

    /// Finds the files of some names that stand in the file `relative_to`, by the loader
    /// that all clones share. It is asked once for each name, one after the other, and by
    /// no other clone meanwhile.
    pub fn load_all(&mut self, relative_to: FileId, file_names: &Vec<String>) -> (r: Vec<
        Result<FileId, IoError>,
    >)
        ensures
            final(self).shared() == old(self).shared(),
            r@.len() == file_names@.len(),
            exists|states: Seq<L>|
                {
                    &&& #[trigger] states.len() == file_names@.len() + 1
                    &&& forall|i: int|
                        #[trigger] is_below(i, r@.len() as int) ==> exists|
                            loader: &mut L,
                            name: &str,
                        | #[trigger]
                            call_ensures(L::load, (loader, relative_to, name), r@[i]) && name@
                                == file_names@[i]@ && *loader == states[i] && *final(loader)
                                == states[i + 1]
                },
    {
        let (mut loader, handle) = self.inner.acquire_write();
        let r = load_all_by(&mut loader, relative_to, file_names);
        handle.release_write(loader);
        r
    }

    /// Tells the loader that all clones share that a file has changed.
    pub fn notify(&mut self, path: FileId) -> (r: IncludeLoaderNotifyAction)
        ensures
            final(self).shared() == old(self).shared(),
            exists|loader: &mut L| #[trigger] call_ensures(L::notify, (loader, path), r),
    {
        let (mut loader, handle) = self.inner.acquire_write();
        let r = notify_by(&mut loader, path);
        handle.release_write(loader);
        r
    }

    /// Tells the loader that all clones share where to search.
    pub fn set_include_paths(&mut self, include_paths: Vec<String>)
        ensures
            final(self).shared() == old(self).shared(),
            exists|loader: &mut L| #[trigger]
                call_ensures(L::set_include_paths, (loader, include_paths), ()),
    {
        let (mut loader, handle) = self.inner.acquire_write();
        set_include_paths_by(&mut loader, include_paths);
        handle.release_write(loader);
    }

    /// Which files the loader that all clones share wants to learn of when they change.
    pub fn watch_patterns(&self) -> (r: Option<Vec<String>>)
        ensures
            exists|loader: &L| #[trigger] call_ensures(L::watch_patterns, (loader,), r),
    {
        let (loader, handle) = self.inner.acquire_write();
        let r = loader.watch_patterns();
        handle.release_write(loader);
        r
    }
}

/// Where a file may be found.
#[derive(Clone, Copy, PartialEq, Eq, Debug)]
pub enum Candidate<'a> {
    /// In a directory.
    Within(&'a str),
    /// In the directory of the file in which it is named.
    Beside,
}

/// The loader that searches a list of directories, and then the directory of the file
/// in which a file is named.
#[derive(Debug)]
pub struct DefaultIncludeLoader {
    include_paths: Vec<String>,
}

impl View for DefaultIncludeLoader {
    type V = Seq<Seq<char>>;

    closed spec fn view(&self) -> Seq<Seq<char>> {
        texts(self.include_paths@)
    }
}

impl Default for DefaultIncludeLoader {
    fn default() -> (r: DefaultIncludeLoader)
        ensures
            r@ == Seq::<Seq<char>>::empty(),
    {
        let r = DefaultIncludeLoader { include_paths: Vec::new() };
        assert(r@ =~= Seq::<Seq<char>>::empty());
        r
    }
}

/// What came of the search for a file, given what came of each place: the first place
/// where it was found, or else the failure at the last place.
pub open spec fn first_found(outcomes: Seq<Result<FileId, IoError>>) -> Result<FileId, IoError>
    decreases outcomes.len(),
{
    if outcomes.len() == 0 {
        arbitrary()
    } else if outcomes.len() == 1 || outcomes[0] is Ok {
        outcomes[0]
    } else {
        first_found(outcomes.skip(1))
    }
}

impl DefaultIncludeLoader {
    /// Sets the directories that are searched.
    pub fn set_include_paths(&mut self, include_paths: Vec<String>)
        ensures
            final(self)@ == texts(include_paths@),
    {
        self.include_paths = include_paths;
    }

    /// Where to search next, after some places.
    pub fn candidate(&self, tried: usize) -> (r: Candidate<'_>)
        ensures
            if tried < self@.len() {
                r matches Candidate::Within(path) && path@ == self@[tried as int]
            } else {
                r == Candidate::Beside
            },
    {
        if tried < self.include_paths.len() {
            Candidate::Within(self.include_paths[tried].as_str())
        } else {
            Candidate::Beside
        }
    }

    /// Whether the search is over after some places, given what came of the next one;
    /// and if so, what came of the search.
    pub fn settle(&self, tried: usize, outcome: Result<FileId, IoError>) -> (r: Option<
        Result<FileId, IoError>,
    >)
        ensures
            r == if tried < self@.len() && outcome is Err {
                None
            } else {
                Some(outcome)
            },
    {
        if tried < self.include_paths.len() && outcome.is_err() {
            None
        } else {
            Some(outcome)
        }
    }
}

/// What came of a search that goes on as [`DefaultIncludeLoader::settle`] says, when
/// each place would give the outcome in a list.
pub open spec fn searched(
    outcomes: Seq<Result<FileId, IoError>>,
    tried: int,
) -> Result<FileId, IoError>
    decreases outcomes.len() - tried,
{
    if tried < outcomes.len() - 1 && outcomes[tried] is Err {
        searched(outcomes, tried + 1)
    } else {
        outcomes[tried]
    }
}

/// A search that goes on until it is settled gives the first place where the file was
/// found, or else the failure at the last place.
pub proof fn lemma_search_finds_first(outcomes: Seq<Result<FileId, IoError>>, tried: int)
    requires
        0 <= tried < outcomes.len(),
    ensures
        searched(outcomes, tried) == first_found(outcomes.skip(tried)),
    decreases outcomes.len() - tried,
{
    if tried < outcomes.len() - 1 {
        assert(outcomes.skip(tried).skip(1) =~= outcomes.skip(tried + 1));
        lemma_search_finds_first(outcomes, tried + 1);
    }
}

} // verus!
