//! The virtual file system: identifier resolution and the content cache.
//!
//! A file identifier resolves to a canonical path: a package-qualified
//! identifier resolves inside its package's directory once the package is
//! present, a plain identifier inside the local root.  The content under a
//! path determines a digest, and all identifiers that resolve to the same
//! path share the cache slot keyed by that digest.  Each slot decodes its
//! text and loads its bytes at most once; the first outcome, success or
//! failure, is cached for good.

use vstd::prelude::*;

use crate::codec::PackageSpecView;
use crate::codec::WasmPackageSpec;
use crate::digest::content_digest;
use crate::digest::path_content_digest;
use crate::errors::FileError;
use crate::package::prepare_package;
use crate::package::spec_prepare_package;
use crate::paths::join_rooted;
use crate::paths::rooted_join;
use crate::store::Store;
use crate::strutil::clone_bytes;
use crate::strutil::str_eq;
use crate::text::decode_utf8;
use crate::text::spec_decode_text;

verus! {

/// The path of the main document, which lives in memory and not in the
/// store.
pub open spec fn main_path() -> Seq<char> {
    "/main.typ"@
}

/// A logical reference to a file: an optional package coordinate and a path
/// inside the package (or inside the local root).
pub struct FileId {
    pub package: Option<WasmPackageSpec>,
    pub path: String,
}

/// The mathematical image of a file identifier.
pub ghost struct FileIdView {
    pub package: Option<PackageSpecView>,
    pub path: Seq<char>,
}

impl View for FileId {
    type V = FileIdView;

    open spec fn view(&self) -> FileIdView {
        FileIdView {
            package: match self.package {
                Some(p) => Some(p@),
                None => None,
            },
            path: self.path@,
        }
    }
}

impl FileId {
    /// An identifier from its two components.
    pub fn new(package: Option<WasmPackageSpec>, path: String) -> (id: FileId)
        ensures
            id@ == (FileIdView {
                package: match package {
                    Some(p) => Some(p@),
                    None => None,
                },
                path: path@,
            }),
    {
        FileId { package, path }
    }

    /// A copy of the identifier with the same components.
    pub fn duplicate(&self) -> (r: FileId)
        ensures
            r@ == self@,
    {
        FileId {
            package: match &self.package {
                Some(p) => Some(p.duplicate()),
                None => None,
            },
            path: self.path.clone(),
        }
    }

    /// Do the two identifiers refer to the same file?
    pub fn matches_id(&self, other: &FileId) -> (r: bool)
        ensures
            r == (self@ == other@),
    {
        let packages_equal = match (&self.package, &other.package) {
            (None, None) => true,
            (Some(a), Some(b)) => str_eq(a.namespace.as_str(), b.namespace.as_str()) && str_eq(
                a.name.as_str(),
                b.name.as_str(),
            ) && a.version == b.version,
            _ => false,
        };
        packages_equal && str_eq(self.path.as_str(), other.path.as_str())
    }
}

/// Is `idv` the designated main identifier: no package, and the main path?
pub open spec fn is_main_id(idv: FileIdView) -> bool {
    idv.package is None && idv.path == main_path()
}

/// The root directory an identifier resolves under: its package's directory,
/// or the local root.
pub open spec fn spec_root_of(store: Map<Seq<char>, Seq<u8>>, idv: FileIdView) -> Result<
    Seq<char>,
    FileError,
> {
    match idv.package {
        Some(p) => spec_prepare_package(store, p),
        None => Ok(Seq::empty()),
    }
}

/// The canonical path an identifier resolves to: its root joined with its
/// relative path, `AccessDenied` when the path escapes the root.
pub open spec fn spec_resolved_path(store: Map<Seq<char>, Seq<u8>>, idv: FileIdView) -> Result<
    Seq<char>,
    FileError,
> {
    match spec_root_of(store, idv) {
        Err(e) => Err(e),
        Ok(root) => match rooted_join(root, idv.path) {
            None => Err(FileError::AccessDenied),
            Some(p) => Ok(p),
        },
    }
}

/// The digest an identifier observes on first resolution: the content
/// digest of its canonical path and the bytes under it, `NotFound` when the
/// store holds nothing there.
pub open spec fn spec_fresh_hash(store: Map<Seq<char>, Seq<u8>>, idv: FileIdView) -> Result<
    u128,
    FileError,
> {
    match spec_resolved_path(store, idv) {
        Err(e) => Err(e),
        Ok(path) => if store.contains_key(path) {
            Ok(content_digest(path, store[path]))
        } else {
            Err(FileError::NotFound)
        },
    }
}

/// What loading a slot's text yields: the decoded bytes under the path, or
/// `NotFound`.
pub open spec fn spec_load_text(store: Map<Seq<char>, Seq<u8>>, path: Seq<char>) -> Result<
    Seq<char>,
    FileError,
> {
    if store.contains_key(path) {
        spec_decode_text(store[path])
    } else {
        Err(FileError::NotFound)
    }
}

/// What loading a slot's bytes yields: the bytes under the path, or
/// `NotFound`.
pub open spec fn spec_load_data(store: Map<Seq<char>, Seq<u8>>, path: Seq<char>) -> Result<
    Seq<u8>,
    FileError,
> {
    if store.contains_key(path) {
        Ok(store[path])
    } else {
        Err(FileError::NotFound)
    }
}

/// A lazy text field: unset, or set for good to its first outcome.
enum LazyText {
    Unset,
    Ready(String),
    Failed(FileError),
}

/// A lazy byte field: unset, or set for good to its first outcome.
enum LazyData {
    Unset,
    Ready(Vec<u8>),
    Failed(FileError),
}

/// The state of a lazy text field.
spec fn text_state(l: LazyText) -> Option<Result<Seq<char>, FileError>> {
    match l {
        LazyText::Unset => None,
        LazyText::Ready(s) => Some(Ok(s@)),
        LazyText::Failed(e) => Some(Err(e)),
    }
}

/// The state of a lazy byte field.
spec fn data_state(l: LazyData) -> Option<Result<Seq<u8>, FileError>> {
    match l {
        LazyData::Unset => None,
        LazyData::Ready(v) => Some(Ok(v@)),
        LazyData::Failed(e) => Some(Err(e)),
    }
}

/// A cache slot: the owning identifier, the canonical path, and the two
/// independently lazy contents.
struct PathSlot {
    hash: u128,
    id: FileId,
    system_path: String,
    text: LazyText,
    data: LazyData,
}

/// The mathematical image of a cache slot.
pub ghost struct SlotView {
    pub id: FileIdView,
    pub path: Seq<char>,
    pub text: Option<Result<Seq<char>, FileError>>,
    pub data: Option<Result<Seq<u8>, FileError>>,
}

spec fn slot_view_of(s: PathSlot) -> SlotView {
    SlotView { id: s.id@, path: s.system_path@, text: text_state(s.text), data: data_state(s.data) }
}

struct HashEntry {
    id: FileId,
    hash: Result<u128, FileError>,
}

/// The virtual file system: the main document buffer, the identifier-to-
/// digest cache, and the digest-keyed content slots.
pub struct VFS {
    main: Option<String>,
    hashes: Vec<HashEntry>,
    slots: Vec<PathSlot>,
}

impl VFS {
    /// The main document's text, once set.
    pub closed spec fn main_text(self) -> Option<Seq<char>> {
        match self.main {
            Some(s) => Some(s@),
            None => None,
        }
    }

    /// The cached digest outcome of each identifier resolved so far.
    pub closed spec fn hash_map(self) -> Map<FileIdView, Result<u128, FileError>> {
        Map::new(
            |idv: FileIdView|
                exists|i: int| 0 <= i < self.hashes@.len() && self.hashes@[i].id@ == idv,
            |idv: FileIdView|
                self.hashes@[choose|i: int|
                    0 <= i < self.hashes@.len() && self.hashes@[i].id@ == idv].hash,
        )
    }

    /// The content slot of each digest observed so far.
    pub closed spec fn slot_map(self) -> Map<u128, SlotView> {
        Map::new(
            |d: u128| exists|j: int| 0 <= j < self.slots@.len() && self.slots@[j].hash == d,
            |d: u128|
                slot_view_of(
                    self.slots@[choose|j: int|
                        0 <= j < self.slots@.len() && self.slots@[j].hash == d],
                ),
        )
    }

    /// The digests of the slots, in creation order.
    pub closed spec fn slot_seq(self) -> Seq<u128> {
        self.slots@.map_values(|s: PathSlot| s.hash)
    }

    /// Identifiers cache at most one digest, digests key at most one slot,
    /// and every cached successful digest has its slot.
    pub closed spec fn wf(self) -> bool {
        &&& forall|i: int, j: int|
            0 <= i < j < self.hashes@.len() ==> self.hashes@[i].id@ != self.hashes@[j].id@
        &&& forall|i: int, j: int|
            0 <= i < j < self.slots@.len() ==> self.slots@[i].hash != self.slots@[j].hash
        &&& forall|i: int|
            0 <= i < self.hashes@.len() ==> ((#[trigger] self.hashes@[i].hash) matches Ok(d)
                ==> exists|j: int| 0 <= j < self.slots@.len() && (#[trigger] self.slots@[j].hash)
                == d)
    }

    /// The hash entry at a known index determines the hash map at its
    /// identifier.
    proof fn lemma_hash_at(self, i: int)
        requires
            self.wf(),
            0 <= i < self.hashes@.len(),
        ensures
            self.hash_map().contains_key(self.hashes@[i].id@),
            self.hash_map()[self.hashes@[i].id@] == self.hashes@[i].hash,
    {
        let idv = self.hashes@[i].id@;
        let w = choose|j: int| 0 <= j < self.hashes@.len() && self.hashes@[j].id@ == idv;
        if w != i {
            if w < i {
                assert(self.hashes@[w].id@ != self.hashes@[i].id@);
            } else {
                assert(self.hashes@[i].id@ != self.hashes@[w].id@);
            }
        }
    }

    /// The slot at a known index determines the slot map at its digest.
    proof fn lemma_slot_at(self, j: int)
        requires
            self.wf(),
            0 <= j < self.slots@.len(),
        ensures
            self.slot_map().contains_key(self.slots@[j].hash),
            self.slot_map()[self.slots@[j].hash] == slot_view_of(self.slots@[j]),
    {
        let d = self.slots@[j].hash;
        let w = choose|k: int| 0 <= k < self.slots@.len() && self.slots@[k].hash == d;
        if w != j {
            if w < j {
                assert(self.slots@[w].hash != self.slots@[j].hash);
            } else {
                assert(self.slots@[j].hash != self.slots@[w].hash);
            }
        }
    }

    /// An empty cache with no main document.
    pub fn new() -> (v: VFS)
        ensures
            v.wf(),
            v.main_text() is None,
            v.hash_map() == Map::<FileIdView, Result<u128, FileError>>::empty(),
            v.slot_map() == Map::<u128, SlotView>::empty(),
            v.slot_seq() == Seq::<u128>::empty(),
    {
        let v = VFS { main: None, hashes: Vec::new(), slots: Vec::new() };
        proof {
            assert(v.hash_map() =~= Map::<FileIdView, Result<u128, FileError>>::empty());
            assert(v.slot_map() =~= Map::<u128, SlotView>::empty());
            assert(v.slot_seq() =~= Seq::<u128>::empty());
        }
        v
    }

    /// Replace the main document's text.  No other state changes.
    pub fn set_main(&mut self, source: String)
        ensures
            final(self).main_text() == Some(source@),
            final(self).hash_map() == old(self).hash_map(),
            final(self).slot_map() == old(self).slot_map(),
            final(self).slot_seq() == old(self).slot_seq(),
            final(self).wf() == old(self).wf(),
    {
        self.main = Some(source);
    }

    /// The main document's text.  It must have been set.
    pub fn get_main(&self) -> (r: String)
        requires
            self.main_text() is Some,
        ensures
            r@ == self.main_text().unwrap(),
    {
        match &self.main {
            Some(s) => s.clone(),
            None => {
                proof {
                    assert(false);
                }
                String::new()
            },
        }
    }

    /// How many content slots the cache holds.
    pub fn slot_count(&self) -> (r: usize)
        ensures
            r == self.slot_seq().len(),
    {
        self.slots.len()
    }
}

/// The digest outcome a resolution observes: the cached one, or on a first
/// resolution the fresh one.
pub open spec fn spec_hash_outcome(
    v: VFS,
    store: Map<Seq<char>, Seq<u8>>,
    idv: FileIdView,
) -> Result<u128, FileError> {
    if v.hash_map().contains_key(idv) {
        v.hash_map()[idv]
    } else {
        spec_fresh_hash(store, idv)
    }
}

/// The slot a successful resolution lands in, before any lazy load: the
/// existing slot under the digest, or a fresh one owned by this identifier.
pub open spec fn spec_slot_base(
    v: VFS,
    store: Map<Seq<char>, Seq<u8>>,
    idv: FileIdView,
    d: u128,
) -> SlotView {
    if v.slot_map().contains_key(d) {
        v.slot_map()[d]
    } else {
        SlotView {
            id: idv,
            path: spec_resolved_path(store, idv).unwrap(),
            text: None,
            data: None,
        }
    }
}

/// A copy of a lazy byte field with the same state.
fn dup_data(l: &LazyData) -> (r: LazyData)
    ensures
        data_state(r) == data_state(*l),
{
    match l {
        LazyData::Unset => LazyData::Unset,
        LazyData::Ready(v) => LazyData::Ready(clone_bytes(v)),
        LazyData::Failed(e) => LazyData::Failed(*e),
    }
}

/// A copy of a lazy text field with the same state.
fn dup_text(l: &LazyText) -> (r: LazyText)
    ensures
        text_state(r) == text_state(*l),
{
    match l {
        LazyText::Unset => LazyText::Unset,
        LazyText::Ready(s) => LazyText::Ready(s.clone()),
        LazyText::Failed(e) => LazyText::Failed(*e),
    }
}

impl VFS {
    /// The index of the hash entry for `id`, if one is cached.
    fn find_hash_index(&self, id: &FileId) -> (r: Option<usize>)
        ensures
            match r {
                Some(i) => i < self.hashes@.len() && self.hashes@[i as int].id@ == id@,
                None => !self.hash_map().contains_key(id@),
            },
    {
        let mut i: usize = 0;
        while i < self.hashes.len()
            invariant
                0 <= i <= self.hashes@.len(),
                forall|j: int| 0 <= j < i ==> self.hashes@[j].id@ != id@,
            decreases self.hashes@.len() - i,
        {
            if self.hashes[i].id.matches_id(id) {
                return Some(i);
            }
            i = i + 1;
        }
        None
    }

    /// The index of the slot keyed by `d`, if one exists.
    fn find_slot_index(&self, d: u128) -> (r: Option<usize>)
        ensures
            match r {
                Some(j) => j < self.slots@.len() && self.slots@[j as int].hash == d,
                None => !self.slot_map().contains_key(d),
            },
    {
        let mut j: usize = 0;
        while j < self.slots.len()
            invariant
                0 <= j <= self.slots@.len(),
                forall|k: int| 0 <= k < j ==> self.slots@[k].hash != d,
            decreases self.slots@.len() - j,
        {
            if self.slots[j].hash == d {
                return Some(j);
            }
            j = j + 1;
        }
        None
    }

    /// Resolve `id` to its slot index: use the cached digest outcome or
    /// compute and cache a fresh one, and make sure the digest's slot
    /// exists.  Errors are cached as permanently as successes.
    fn slot_index(&mut self, store: &Store, id: &FileId) -> (r: Result<usize, FileError>)
        requires
            old(self).wf(),
            store.wf(),
        ensures
            final(self).wf(),
            final(self).main_text() == old(self).main_text(),
            ({
                let h = spec_hash_outcome(*old(self), store@, id@);
                &&& final(self).hash_map() == old(self).hash_map().insert(id@, h)
                &&& match h {
                    Err(e) => r == Err::<usize, FileError>(e) && final(self).slot_map() == old(self).slot_map() && final(self).slot_seq() == old(self).slot_seq(),
                    Ok(d) => {
                        let base = spec_slot_base(*old(self), store@, id@, d);
                        &&& r matches Ok(idx) && idx < final(self).slots@.len() && final(self).slots@[idx as int].hash == d && slot_view_of(
                            final(self).slots@[idx as int],
                        ) == base
                        &&& final(self).slot_map() == old(self).slot_map().insert(d, base)
                        &&& final(self).slot_seq() == if old(self).slot_map().contains_key(d) {
                            old(self).slot_seq()
                        } else {
                            old(self).slot_seq().push(d)
                        }
                    },
                }
            }),
    {
        let ghost old_self = *self;
        let ghost idv = id@;
        let cached = self.find_hash_index(id);
        let ghost was_cached = old_self.hash_map().contains_key(idv);
        let mut fresh_path: Option<String> = None;
        let h: Result<u128, FileError> = match cached {
            Some(i) => {
                proof {
                    old_self.lemma_hash_at(i as int);
                }
                self.hashes[i].hash
            },
            None => {
                let root_res: Result<String, FileError> = match &id.package {
                    Some(p) => prepare_package(store, p),
                    None => Ok(String::new()),
                };
                proof {
                    match &root_res {
                        Ok(root) => {
                            assert(spec_root_of(store@, idv) == Ok::<Seq<char>, FileError>(root@));
                        },
                        Err(e) => {
                            assert(spec_root_of(store@, idv) == Err::<Seq<char>, FileError>(*e));
                        },
                    }
                }
                let hr: Result<u128, FileError> = match root_res {
                    Err(e) => Err(e),
                    Ok(root) => match join_rooted(root.as_str(), id.path.as_str()) {
                        None => Err(FileError::AccessDenied),
                        Some(path) => match store.get(path.as_str()) {
                            None => Err(FileError::NotFound),
                            Some(content) => {
                                let dg = path_content_digest(path.as_str(), &content);
                                fresh_path = Some(path);
                                Ok(dg)
                            },
                        },
                    },
                };
                proof {
                    assert(hr == spec_fresh_hash(store@, idv));
                    assert(hr matches Ok(d) ==> fresh_path matches Some(p) && p@
                        == spec_resolved_path(store@, idv).unwrap());
                }
                let ghost pre_push = *self;
                self.hashes.push(HashEntry { id: id.duplicate(), hash: hr });
                proof {
                    let n = pre_push.hashes@.len() as int;
                    assert forall|a: int, b: int|
                        0 <= a < b < self.hashes@.len() implies self.hashes@[a].id@
                        != self.hashes@[b].id@ by {
                        if b < n {
                            assert(pre_push.hashes@[a].id@ != pre_push.hashes@[b].id@);
                        } else {
                            assert(self.hashes@[b].id@ == idv);
                            if self.hashes@[a].id@ == idv {
                                assert(pre_push.hashes@[a].id@ == idv);
                                assert(pre_push.hash_map().contains_key(idv));
                            }
                        }
                    }
                    assert forall|k: FileIdView| true implies (#[trigger] self.hash_map().contains_key(
                        k,
                    ) == old_self.hash_map().insert(idv, hr).contains_key(k) && (
                    self.hash_map().contains_key(k) ==> self.hash_map()[k] == old_self.hash_map().insert(
                        idv,
                        hr,
                    )[k])) by {
                        if k == idv {
                            assert(self.hashes@[n].id@ == idv);
                            let w = choose|w: int|
                                0 <= w < self.hashes@.len() && self.hashes@[w].id@ == idv;
                            if w != n {
                                assert(pre_push.hashes@[w].id@ == idv);
                                assert(pre_push.hash_map().contains_key(idv));
                            }
                            assert(self.hash_map()[idv] == self.hashes@[w].hash);
                        } else {
                            if old_self.hash_map().contains_key(k) {
                                let j = choose|j: int|
                                    0 <= j < pre_push.hashes@.len() && pre_push.hashes@[j].id@
                                        == k;
                                assert(self.hashes@[j].id@ == k);
                                let w = choose|w: int|
                                    0 <= w < self.hashes@.len() && self.hashes@[w].id@ == k;
                                assert(w != n);
                                assert(pre_push.hashes@[w].id@ == k);
                                old_self.lemma_hash_at(w);
                            }
                            if self.hash_map().contains_key(k) {
                                let w = choose|w: int|
                                    0 <= w < self.hashes@.len() && self.hashes@[w].id@ == k;
                                assert(w != n);
                                assert(pre_push.hashes@[w].id@ == k);
                                old_self.lemma_hash_at(w);
                            }
                        }
                    }
                    assert(self.hash_map() =~= old_self.hash_map().insert(idv, hr));
                }
                hr
            },
        };
        proof {
            assert(h == spec_hash_outcome(old_self, store@, idv)) by {
                if was_cached {
                    assert(self.hash_map() =~= old_self.hash_map().insert(idv, h));
                }
            }
            assert(self.hash_map() == old_self.hash_map().insert(idv, h)) by {
                if was_cached {
                    assert(self.hash_map() =~= old_self.hash_map().insert(idv, h));
                }
            }
            assert(self.slots@ == old_self.slots@);
            assert(self.slot_map() == old_self.slot_map());
            assert(self.slot_seq() == old_self.slot_seq());
        }
        let d = match h {
            Ok(d) => d,
            Err(e) => {
                proof {
                    assert forall|a: int|
                        0 <= a < self.hashes@.len() implies ((#[trigger] self.hashes@[a].hash)
                        matches Ok(dd) ==> exists|j: int|
                        0 <= j < self.slots@.len() && (#[trigger] self.slots@[j].hash) == dd) by {
                        if a < old_self.hashes@.len() {
                            assert(old_self.hashes@[a].hash == self.hashes@[a].hash);
                        }
                    }
                }
                return Err(e);
            },
        };
        let idx: usize = match self.find_slot_index(d) {
            Some(j) => {
                proof {
                    old_self.lemma_slot_at(j as int);
                    assert(spec_slot_base(old_self, store@, idv, d) == slot_view_of(
                        self.slots@[j as int],
                    ));
                    assert(self.slot_map() =~= old_self.slot_map().insert(
                        d,
                        spec_slot_base(old_self, store@, idv, d),
                    ));
                }
                j
            },
            None => {
                proof {
                    if was_cached {
                        let w = choose|w: int|
                            0 <= w < old_self.hashes@.len() && old_self.hashes@[w].id@ == idv;
                        assert(old_self.hashes@[w].hash == Ok::<u128, FileError>(d));
                        assert(exists|j: int|
                            0 <= j < old_self.slots@.len() && (#[trigger] old_self.slots@[j].hash)
                                == d);
                        let j = choose|j: int|
                            0 <= j < old_self.slots@.len() && (#[trigger] old_self.slots@[j].hash)
                                == d;
                        old_self.lemma_slot_at(j);
                        assert(false);
                    }
                }
                let path = match fresh_path {
                    Some(p) => p,
                    None => {
                        proof {
                            assert(false);
                        }
                        String::new()
                    },
                };
                let ghost pre_push = *self;
                let nidx = self.slots.len();
                self.slots.push(
                    PathSlot {
                        hash: d,
                        id: id.duplicate(),
                        system_path: path,
                        text: LazyText::Unset,
                        data: LazyData::Unset,
                    },
                );
                proof {
                    let n = pre_push.slots@.len() as int;
                    let base = spec_slot_base(old_self, store@, idv, d);
                    assert(slot_view_of(self.slots@[n]) == base);
                    assert forall|a: int, b: int|
                        0 <= a < b < self.slots@.len() implies self.slots@[a].hash
                        != self.slots@[b].hash by {
                        if b < n {
                            assert(pre_push.slots@[a].hash != pre_push.slots@[b].hash);
                        } else {
                            if self.slots@[a].hash == d {
                                assert(pre_push.slots@[a].hash == d);
                                pre_push.lemma_slot_at(a);
                            }
                        }
                    }
                    assert forall|k: u128| true implies (#[trigger] self.slot_map().contains_key(k)
                        == old_self.slot_map().insert(d, base).contains_key(k) && (
                    self.slot_map().contains_key(k) ==> self.slot_map()[k]
                        == old_self.slot_map().insert(d, base)[k])) by {
                        if k == d {
                            let w = choose|w: int|
                                0 <= w < self.slots@.len() && self.slots@[w].hash == d;
                            if w != n {
                                assert(pre_push.slots@[w].hash == d);
                                pre_push.lemma_slot_at(w);
                            }
                        } else {
                            if old_self.slot_map().contains_key(k) {
                                let j = choose|j: int|
                                    0 <= j < pre_push.slots@.len() && pre_push.slots@[j].hash == k;
                                assert(self.slots@[j].hash == k);
                                let w = choose|w: int|
                                    0 <= w < self.slots@.len() && self.slots@[w].hash == k;
                                assert(w != n);
                                assert(pre_push.slots@[w].hash == k);
                                old_self.lemma_slot_at(w);
                                old_self.lemma_slot_at(j);
                            }
                            if self.slot_map().contains_key(k) {
                                let w = choose|w: int|
                                    0 <= w < self.slots@.len() && self.slots@[w].hash == k;
                                assert(w != n);
                                assert(pre_push.slots@[w].hash == k);
                                old_self.lemma_slot_at(w);
                            }
                        }
                    }
                    assert(self.slot_map() =~= old_self.slot_map().insert(d, base));
                    assert(self.slot_seq() =~= old_self.slot_seq().push(d));
                }
                nidx
            },
        };
        proof {
            assert forall|a: int|
                0 <= a < self.hashes@.len() implies ((#[trigger] self.hashes@[a].hash) matches Ok(
                dd,
            ) ==> exists|j: int|
                0 <= j < self.slots@.len() && (#[trigger] self.slots@[j].hash) == dd) by {
                if self.hashes@[a].hash is Ok {
                    let dd = self.hashes@[a].hash.unwrap();
                    if a < old_self.hashes@.len() {
                        assert(old_self.hashes@[a].hash == self.hashes@[a].hash);
                        let j = choose|j: int|
                            0 <= j < old_self.slots@.len() && (#[trigger] old_self.slots@[j].hash)
                                == dd;
                        assert(self.slots@[j].hash == dd);
                    } else {
                        assert(dd == d);
                        assert(self.slots@[idx as int].hash == d);
                    }
                }
            }
        }
        Ok(idx)
    }

    /// The decoded text of the file `id` refers to.  The main identifier
    /// reads the in-memory main document; everything else resolves through
    /// the store, and the first outcome per slot, success or failure, is
    /// cached for good.
    pub fn source(&mut self, store: &Store, id: &FileId) -> (r: Result<String, FileError>)
        requires
            old(self).wf(),
            store.wf(),
            is_main_id(id@) ==> old(self).main_text() is Some,
        ensures
            final(self).wf(),
            final(self).main_text() == old(self).main_text(),
            is_main_id(id@) ==> (r matches Ok(s) && Some(s@) == old(self).main_text() && final(self).hash_map() == old(self).hash_map() && final(self).slot_map() == old(self).slot_map()
                && final(self).slot_seq() == old(self).slot_seq()),
            !is_main_id(id@) ==> ({
                let h = spec_hash_outcome(*old(self), store@, id@);
                &&& final(self).hash_map() == old(self).hash_map().insert(id@, h)
                &&& match h {
                    Err(e) => r == Err::<String, FileError>(e) && final(self).slot_map() == old(self).slot_map() && final(self).slot_seq() == old(self).slot_seq(),
                    Ok(d) => {
                        let base = spec_slot_base(*old(self), store@, id@, d);
                        let outcome = match base.text {
                            Some(t) => t,
                            None => spec_load_text(store@, base.path),
                        };
                        &&& final(self).slot_map() == old(self).slot_map().insert(
                            d,
                            SlotView { text: Some(outcome), ..base },
                        )
                        &&& final(self).slot_seq() == if old(self).slot_map().contains_key(d) {
                            old(self).slot_seq()
                        } else {
                            old(self).slot_seq().push(d)
                        }
                        &&& (r matches Ok(s) ==> outcome == Ok::<Seq<char>, FileError>(s@))
                        &&& (r matches Err(e) ==> outcome == Err::<Seq<char>, FileError>(e))
                    },
                }
            }),
    {
        if id.package.is_none() && str_eq(id.path.as_str(), "/main.typ") {
            return Ok(self.get_main());
        }
        let ghost old_self = *self;
        let idx = match self.slot_index(store, id) {
            Err(e) => {
                return Err(e);
            },
            Ok(i) => i,
        };
        let ghost d = self.slots@[idx as int].hash;
        let ghost base = spec_slot_base(old_self, store@, id@, d);
        let ghost mid_self = *self;
        match &self.slots[idx].text {
            LazyText::Ready(s) => {
                let out = s.clone();
                proof {
                    assert(base.text == Some(Ok::<Seq<char>, FileError>(out@)));
                    assert((SlotView { text: Some(base.text.unwrap()), ..base }) == base);
                }
                Ok(out)
            },
            LazyText::Failed(e) => {
                let err = *e;
                proof {
                    assert(base.text == Some(Err::<Seq<char>, FileError>(err)));
                    assert((SlotView { text: Some(base.text.unwrap()), ..base }) == base);
                }
                Err(err)
            },
            LazyText::Unset => {
                let path = self.slots[idx].system_path.clone();
                let loaded: Result<String, FileError> = match store.get(path.as_str()) {
                    None => Err(FileError::NotFound),
                    Some(bytes) => decode_utf8(bytes),
                };
                let ghost outcome = spec_load_text(store@, base.path);
                proof {
                    assert(loaded matches Ok(s) ==> outcome == Ok::<Seq<char>, FileError>(s@));
                    assert(loaded matches Err(e) ==> outcome == Err::<Seq<char>, FileError>(e));
                }
                let new_text = match &loaded {
                    Ok(s) => LazyText::Ready(s.clone()),
                    Err(e) => LazyText::Failed(*e),
                };
                let new_slot = PathSlot {
                    hash: self.slots[idx].hash,
                    id: self.slots[idx].id.duplicate(),
                    system_path: path,
                    text: new_text,
                    data: dup_data(&self.slots[idx].data),
                };
                self.slots.set(idx, new_slot);
                proof {
                    let updated = SlotView { text: Some(outcome), ..base };
                    assert(slot_view_of(self.slots@[idx as int]) == updated);
                    assert forall|a: int, b: int|
                        0 <= a < b < self.slots@.len() implies self.slots@[a].hash
                        != self.slots@[b].hash by {
                        assert(mid_self.slots@[a].hash == self.slots@[a].hash);
                        assert(mid_self.slots@[b].hash == self.slots@[b].hash);
                    }
                    assert forall|k: u128| true implies (#[trigger] self.slot_map().contains_key(k)
                        == mid_self.slot_map().insert(d, updated).contains_key(k) && (
                    self.slot_map().contains_key(k) ==> self.slot_map()[k]
                        == mid_self.slot_map().insert(d, updated)[k])) by {
                        if k == d {
                            self.lemma_slot_at_raw(idx as int);
                        } else {
                            if mid_self.slot_map().contains_key(k) {
                                let j = choose|j: int|
                                    0 <= j < mid_self.slots@.len() && mid_self.slots@[j].hash == k;
                                assert(j != idx as int);
                                assert(self.slots@[j].hash == k);
                                self.lemma_slot_at_raw(j);
                                mid_self.lemma_slot_at_raw(j);
                            }
                            if self.slot_map().contains_key(k) {
                                let j = choose|j: int|
                                    0 <= j < self.slots@.len() && self.slots@[j].hash == k;
                                assert(j != idx as int);
                                assert(mid_self.slots@[j].hash == k);
                                self.lemma_slot_at_raw(j);
                                mid_self.lemma_slot_at_raw(j);
                            }
                        }
                    }
                    assert(self.slot_map() =~= mid_self.slot_map().insert(d, updated));
                    assert(self.slot_map() =~= old_self.slot_map().insert(d, updated));
                    assert(self.slot_seq() =~= mid_self.slot_seq());
                    assert(self.hash_map() =~= mid_self.hash_map());
                    assert forall|a: int|
                        0 <= a < self.hashes@.len() implies ((#[trigger] self.hashes@[a].hash)
                        matches Ok(dd) ==> exists|j: int|
                        0 <= j < self.slots@.len() && (#[trigger] self.slots@[j].hash) == dd) by {
                        if self.hashes@[a].hash is Ok {
                            let dd = self.hashes@[a].hash.unwrap();
                            let j = choose|j: int|
                                0 <= j < mid_self.slots@.len() && (
                                #[trigger] mid_self.slots@[j].hash) == dd;
                            assert(self.slots@[j].hash == dd);
                        }
                    }
                }
                loaded
            },
        }
    }

    /// The raw bytes of the file `id` refers to.  The main identifier reads
    /// the UTF-8 encoding of the in-memory main document; everything else
    /// resolves through the store, and the first outcome per slot, success or
    /// failure, is cached for good.
    pub fn file(&mut self, store: &Store, id: &FileId) -> (r: Result<Vec<u8>, FileError>)
        requires
            old(self).wf(),
            store.wf(),
            is_main_id(id@) ==> old(self).main_text() is Some,
        ensures
            final(self).wf(),
            final(self).main_text() == old(self).main_text(),
            is_main_id(id@) ==> (r matches Ok(b) && old(self).main_text() matches Some(m) && b@
                == vstd::utf8::encode_utf8(m) && final(self).hash_map() == old(self).hash_map()
                && final(self).slot_map() == old(self).slot_map() && final(self).slot_seq() == old(
                self,
            ).slot_seq()),
            !is_main_id(id@) ==> ({
                let h = spec_hash_outcome(*old(self), store@, id@);
                &&& final(self).hash_map() == old(self).hash_map().insert(id@, h)
                &&& match h {
                    Err(e) => r == Err::<Vec<u8>, FileError>(e) && final(self).slot_map() == old(
                        self,
                    ).slot_map() && final(self).slot_seq() == old(self).slot_seq(),
                    Ok(d) => {
                        let base = spec_slot_base(*old(self), store@, id@, d);
                        let outcome = match base.data {
                            Some(t) => t,
                            None => spec_load_data(store@, base.path),
                        };
                        &&& final(self).slot_map() == old(self).slot_map().insert(
                            d,
                            SlotView { data: Some(outcome), ..base },
                        )
                        &&& final(self).slot_seq() == if old(self).slot_map().contains_key(d) {
                            old(self).slot_seq()
                        } else {
                            old(self).slot_seq().push(d)
                        }
                        &&& (r matches Ok(b) ==> outcome == Ok::<Seq<u8>, FileError>(b@))
                        &&& (r matches Err(e) ==> outcome == Err::<Seq<u8>, FileError>(e))
                    },
                }
            }),
    {
        if id.package.is_none() && str_eq(id.path.as_str(), "/main.typ") {
            let m = self.get_main();
            return Ok(m.as_str().as_bytes_vec());
        }
        let ghost old_self = *self;
        let idx = match self.slot_index(store, id) {
            Err(e) => {
                return Err(e);
            },
            Ok(i) => i,
        };
        let ghost d = self.slots@[idx as int].hash;
        let ghost base = spec_slot_base(old_self, store@, id@, d);
        let ghost mid_self = *self;
        match &self.slots[idx].data {
            LazyData::Ready(v) => {
                let out = clone_bytes(v);
                proof {
                    assert(base.data == Some(Ok::<Seq<u8>, FileError>(out@)));
                    assert((SlotView { data: Some(base.data.unwrap()), ..base }) == base);
                }
                Ok(out)
            },
            LazyData::Failed(e) => {
                let err = *e;
                proof {
                    assert(base.data == Some(Err::<Seq<u8>, FileError>(err)));
                    assert((SlotView { data: Some(base.data.unwrap()), ..base }) == base);
                }
                Err(err)
            },
            LazyData::Unset => {
                let path = self.slots[idx].system_path.clone();
                let loaded: Result<Vec<u8>, FileError> = match store.get(path.as_str()) {
                    None => Err(FileError::NotFound),
                    Some(bytes) => Ok(bytes),
                };
                let ghost outcome = spec_load_data(store@, base.path);
                proof {
                    assert(loaded matches Ok(b) ==> outcome == Ok::<Seq<u8>, FileError>(b@));
                    assert(loaded matches Err(e) ==> outcome == Err::<Seq<u8>, FileError>(e));
                }
                let new_data = match &loaded {
                    Ok(v) => LazyData::Ready(clone_bytes(v)),
                    Err(e) => LazyData::Failed(*e),
                };
                let new_slot = PathSlot {
                    hash: self.slots[idx].hash,
                    id: self.slots[idx].id.duplicate(),
                    system_path: path,
                    text: dup_text(&self.slots[idx].text),
                    data: new_data,
                };
                self.slots.set(idx, new_slot);
                proof {
                    let updated = SlotView { data: Some(outcome), ..base };
                    assert(slot_view_of(self.slots@[idx as int]) == updated);
                    assert forall|a: int, b: int|
                        0 <= a < b < self.slots@.len() implies self.slots@[a].hash
                        != self.slots@[b].hash by {
                        assert(mid_self.slots@[a].hash == self.slots@[a].hash);
                        assert(mid_self.slots@[b].hash == self.slots@[b].hash);
                    }
                    assert forall|k: u128| true implies (#[trigger] self.slot_map().contains_key(k)
                        == mid_self.slot_map().insert(d, updated).contains_key(k) && (
                    self.slot_map().contains_key(k) ==> self.slot_map()[k]
                        == mid_self.slot_map().insert(d, updated)[k])) by {
                        if k == d {
                            self.lemma_slot_at_raw(idx as int);
                        } else {
                            if mid_self.slot_map().contains_key(k) {
                                let j = choose|j: int|
                                    0 <= j < mid_self.slots@.len() && mid_self.slots@[j].hash == k;
                                assert(j != idx as int);
                                assert(self.slots@[j].hash == k);
                                self.lemma_slot_at_raw(j);
                                mid_self.lemma_slot_at_raw(j);
                            }
                            if self.slot_map().contains_key(k) {
                                let j = choose|j: int|
                                    0 <= j < self.slots@.len() && self.slots@[j].hash == k;
                                assert(j != idx as int);
                                assert(mid_self.slots@[j].hash == k);
                                self.lemma_slot_at_raw(j);
                                mid_self.lemma_slot_at_raw(j);
                            }
                        }
                    }
                    assert(self.slot_map() =~= mid_self.slot_map().insert(d, updated));
                    assert(self.slot_map() =~= old_self.slot_map().insert(d, updated));
                    assert(self.slot_seq() =~= mid_self.slot_seq());
                    assert(self.hash_map() =~= mid_self.hash_map());
                    assert forall|a: int|
                        0 <= a < self.hashes@.len() implies ((#[trigger] self.hashes@[a].hash)
                        matches Ok(dd) ==> exists|j: int|
                        0 <= j < self.slots@.len() && (#[trigger] self.slots@[j].hash) == dd) by {
                        if self.hashes@[a].hash is Ok {
                            let dd = self.hashes@[a].hash.unwrap();
                            let j = choose|j: int|
                                0 <= j < mid_self.slots@.len() && (
                                #[trigger] mid_self.slots@[j].hash) == dd;
                            assert(self.slots@[j].hash == dd);
                        }
                    }
                }
                loaded
            },
        }
    }

    /// Like [`VFS::lemma_slot_at`], but needing only slot-key uniqueness.
    proof fn lemma_slot_at_raw(self, j: int)
        requires
            forall|a: int, b: int|
                0 <= a < b < self.slots@.len() ==> self.slots@[a].hash != self.slots@[b].hash,
            0 <= j < self.slots@.len(),
        ensures
            self.slot_map().contains_key(self.slots@[j].hash),
            self.slot_map()[self.slots@[j].hash] == slot_view_of(self.slots@[j]),
    {
        let d = self.slots@[j].hash;
        let w = choose|k: int| 0 <= k < self.slots@.len() && self.slots@[k].hash == d;
        if w != j {
            if w < j {
                assert(self.slots@[w].hash != self.slots@[j].hash);
            } else {
                assert(self.slots@[j].hash != self.slots@[w].hash);
            }
        }
    }
}

/// Identifiers that resolve to the same canonical path observe the same
/// digest and therefore share one cache slot.
pub proof fn lemma_same_path_same_slot(
    store: Map<Seq<char>, Seq<u8>>,
    a: FileIdView,
    b: FileIdView,
)
    requires
        spec_resolved_path(store, a) is Ok,
        spec_resolved_path(store, a) == spec_resolved_path(store, b),
    ensures
        spec_fresh_hash(store, a) == spec_fresh_hash(store, b),
{
}

} // verus!
