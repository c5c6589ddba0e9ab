//! The package manager: availability checks, archive installation, listing
//! and deletion of packages in the store.
//!
//! A package's files live under the key prefix
//! `packages/namespace/name/major.minor.patch/`; the marker key ending in
//! `/.` denotes a completed installation.  Only the `preview` namespace
//! supports fetching.  The network itself stays outside: `download_package`
//! decides whether a fetch is needed and hands back the archive URL, the
//! caller fetches those bytes, and `install_archive` unpacks them into the
//! store and writes the marker key last.

use vstd::prelude::*;

use crate::codec::marker_coord_of;
use crate::codec::marker_key_of;
use crate::codec::package_prefix_of;
use crate::codec::parse_marker_key;
use crate::codec::parse_spec_string;
use crate::codec::spec_coord_of;
use crate::codec::lemma_marker_key_round_trip;
use crate::codec::lemma_spec_string_injective;
use crate::codec::storage_path_of;
use crate::codec::valid_coord;
use crate::codec::version_chars;
use crate::codec::PackageSpecView;
use crate::codec::WasmPackageSpec;
use crate::errors::FileError;
use crate::paths::join_rooted;
use crate::paths::rooted_join;
use crate::store::Store;
use crate::strutil::push_char;
use crate::strutil::str_eq;
use crate::strutil::str_starts_with;

verus! {

/// An entry of an unpacked archive: a path relative to the package root, and
/// the entry's bytes.
pub struct TarEntry {
    pub path: String,
    pub bytes: Vec<u8>,
}

/// The mathematical image of an archive entry.
pub ghost struct TarEntryView {
    pub path: Seq<char>,
    pub bytes: Seq<u8>,
}

impl View for TarEntry {
    type V = TarEntryView;

    open spec fn view(&self) -> TarEntryView {
        TarEntryView { path: self.path@, bytes: self.bytes@ }
    }
}

impl DeepView for TarEntry {
    type V = TarEntryView;

    open spec fn deep_view(&self) -> TarEntryView {
        self.view()
    }
}

/// What gzip decompression of `data` yields, when `data` is a well-formed
/// gzip stream.  The result depends on the bytes alone.
pub uninterp spec fn gunzip_of(data: Seq<u8>) -> Option<Seq<u8>>;

/// Relies on flate2's `read::GzDecoder`: decompressing a gzip stream is a
/// function of its bytes alone, and fails on a malformed stream.
#[verifier::external_body]
fn gunzip(data: &Vec<u8>) -> (r: Option<Vec<u8>>)
    ensures
        r is Some <==> gunzip_of(data@) is Some,
        r matches Some(out) ==> gunzip_of(data@) == Some(out@),
{
    let mut decoder = flate2::read::GzDecoder::new(&data[..]);
    let mut out = Vec::new();
    match std::io::Read::read_to_end(&mut decoder, &mut out) {
        Ok(_) => Some(out),
        Err(_) => None,
    }
}

/// What the entries of the tar archive `data` are: each entry's relative
/// path and bytes, in archive order.  The result depends on the bytes alone.
pub uninterp spec fn tar_entries_of(data: Seq<u8>) -> Option<Seq<TarEntryView>>;

/// Relies on tar's `Archive`: an archive's entries, their paths and their
/// bytes, in order, are a function of the archive bytes alone; a malformed
/// archive or a non-UTF-8 entry path fails.
#[verifier::external_body]
fn untar(data: &Vec<u8>) -> (r: Option<Vec<TarEntry>>)
    ensures
        r is Some <==> tar_entries_of(data@) is Some,
        r matches Some(es) ==> tar_entries_of(data@) == Some(es.deep_view()),
{
    let mut archive = tar::Archive::new(&data[..]);
    let mut out: Vec<TarEntry> = Vec::new();
    for entry in archive.entries().ok()? {
        let mut entry = entry.ok()?;
        let path = entry.path().ok()?.to_str()?.to_string();
        let mut bytes = Vec::new();
        std::io::Read::read_to_end(&mut entry, &mut bytes).ok()?;
        out.push(TarEntry { path, bytes });
    }
    Some(out)
}

/// What `prepare_package` returns for a store and a coordinate: the root
/// directory when the package is installed, `AccessDenied` outside the
/// `preview` namespace, `NotFound` when the marker key is absent.
pub open spec fn spec_prepare_package(
    store: Map<Seq<char>, Seq<u8>>,
    p: PackageSpecView,
) -> Result<Seq<char>, FileError> {
    if p.namespace != "preview"@ {
        Err(FileError::AccessDenied)
    } else if !store.contains_key(marker_key_of(p)) {
        Err(FileError::NotFound)
    } else {
        Ok(storage_path_of(p))
    }
}

/// Make sure a package is present and return its root directory.  A missing
/// package surfaces as `NotFound`; the caller downloads its archive, installs
/// it, and asks again.  No namespace but `preview` supports fetching.
pub fn prepare_package(store: &Store, spec: &WasmPackageSpec) -> (r: Result<String, FileError>)
    requires
        store.wf(),
    ensures
        r matches Ok(dir) ==> spec_prepare_package(store@, spec@) == Ok::<Seq<char>, FileError>(
            dir@,
        ),
        r matches Err(e) ==> spec_prepare_package(store@, spec@) == Err::<Seq<char>, FileError>(e),
{
    if !str_eq(spec.namespace.as_str(), "preview") {
        return Err(FileError::AccessDenied);
    }
    let key = spec.package_directory_key();
    if !store.contains(key.as_str()) {
        return Err(FileError::NotFound);
    }
    Ok(spec.package_directory())
}

/// The registry URL of a package's archive.
pub open spec fn url_of(p: PackageSpecView) -> Seq<char> {
    "https://packages.typst.org/preview/"@ + p.name + seq!['-'] + version_chars(p.version)
        + ".tar.gz"@
}

/// What `download_package` decides: the package is already installed, or the
/// archive at the given URL must be fetched and handed to
/// [`PackageManager::install_archive`].
pub enum DownloadPlan {
    AlreadyPresent,
    Fetch(String),
}

/// The coordinates of the installed packages among `keys`, in order: the
/// marker keys, parsed.
pub open spec fn spec_list_packages(keys: Seq<Seq<char>>) -> Seq<PackageSpecView> {
    keys.filter_map(|k: Seq<char>| marker_coord_of(k))
}

/// The store after writing the first `n` archive entries under `dir`, in
/// order.  An entry whose path escapes `dir` writes nothing.
pub open spec fn stored_after(
    m: Map<Seq<char>, Seq<u8>>,
    dir: Seq<char>,
    entries: Seq<TarEntryView>,
    n: int,
) -> Map<Seq<char>, Seq<u8>>
    decreases n,
{
    if n <= 0 {
        m
    } else {
        let prev = stored_after(m, dir, entries, n - 1);
        match rooted_join(dir, entries[n - 1].path) {
            Some(key) => prev.insert(key, entries[n - 1].bytes),
            None => prev,
        }
    }
}

/// Do the first `n` entries all stay inside the package directory?
pub open spec fn entries_stay_inside(dir: Seq<char>, entries: Seq<TarEntryView>, n: int) -> bool {
    forall|i: int| 0 <= i < n ==> rooted_join(dir, (#[trigger] entries[i]).path) is Some
}

/// The package lifecycle operations over an injected store.
pub struct PackageManager {}

impl PackageManager {
    /// A package manager.
    pub fn new() -> (m: PackageManager) {
        PackageManager {}
    }

    /// Every installed coordinate, in store enumeration order: the keys that
    /// parse as marker keys.  Keys that merely resemble one are ignored.
    pub fn list_packages(&self, store: &Store) -> (r: Vec<WasmPackageSpec>)
        requires
            store.wf(),
        ensures
            r.deep_view() == spec_list_packages(store.key_seq()),
    {
        let keys = store.list();
        let ghost all = store.key_seq();
        let mut out: Vec<WasmPackageSpec> = Vec::new();
        let mut i: usize = 0;
        proof {
            assert(all.take(0).filter_map(|k: Seq<char>| marker_coord_of(k))
                =~= Seq::<PackageSpecView>::empty());
            assert(out.deep_view() =~= Seq::<PackageSpecView>::empty());
        }
        while i < keys.len()
            invariant
                all == store.key_seq(),
                keys.deep_view() == all,
                keys@.len() == all.len(),
                0 <= i <= all.len(),
                out.deep_view() == all.take(i as int).filter_map(
                    |k: Seq<char>| marker_coord_of(k),
                ),
            decreases keys@.len() - i,
        {
            let ghost f = |k: Seq<char>| marker_coord_of(k);
            proof {
                assert(keys@[i as int]@ == all[i as int]);
                all.lemma_filter_map_take_succ(f, i as int);
            }
            match parse_marker_key(keys[i].as_str()) {
                Some(p) => {
                    proof {
                        let k = all[i as int];
                        assert(valid_coord(p@) && k == marker_key_of(p@));
                        lemma_marker_key_round_trip(p@);
                        assert(marker_coord_of(k) == Some(p@));
                        assert(all.take(i + 1).filter_map(f) =~= all.take(i as int).filter_map(f)
                            + seq![p@]);
                    }
                    let ghost old_out = out.deep_view();
                    out.push(p);
                    proof {
                        assert(out.deep_view() =~= old_out.push(p@));
                        assert(out.deep_view() =~= all.take(i + 1).filter_map(f));
                    }
                },
                None => {
                    proof {
                        let k = all[i as int];
                        assert(marker_coord_of(k) is None) by {
                            if marker_coord_of(k) is Some {
                                let q = choose|q: PackageSpecView|
                                    valid_coord(q) && k == marker_key_of(q);
                                assert(valid_coord(q) && k == marker_key_of(q));
                            }
                        }
                        assert(all.take(i + 1).filter_map(f) =~= all.take(i as int).filter_map(f));
                    }
                },
            }
            i = i + 1;
        }
        proof {
            assert(all.take(all.len() as int) =~= all);
        }
        out
    }

    /// Delete every store key under the package's prefix.  Doing so for a
    /// package that is not present deletes nothing and is not an error.
    pub fn delete_package(&self, store: &mut Store, pkg: &WasmPackageSpec)
        requires
            old(store).wf(),
        ensures
            final(store).wf(),
            final(store)@ == old(store)@.remove_keys(
                old(store)@.dom().filter(|k: Seq<char>| package_prefix_of(pkg@).is_prefix_of(k)),
            ),
    {
        let ghost old_store = *store;
        let ghost prefix = package_prefix_of(pkg@);
        let mut pat = pkg.package_directory();
        push_char(&mut pat, '/');
        proof {
            assert(pat@ =~= prefix);
        }
        let keys = store.list();
        let ghost all = old_store.key_seq();
        let mut i: usize = 0;
        proof {
            assert(old_store@.remove_keys(
                all.take(0).to_set().filter(|k: Seq<char>| prefix.is_prefix_of(k)),
            ) =~= old_store@);
        }
        while i < keys.len()
            invariant
                pat@ == prefix,
                keys.deep_view() == all,
                keys@.len() == all.len(),
                0 <= i <= all.len(),
                store.wf(),
                store@ == old_store@.remove_keys(
                    all.take(i as int).to_set().filter(|k: Seq<char>| prefix.is_prefix_of(k)),
                ),
            decreases keys@.len() - i,
        {
            let ghost pre_set = all.take(i as int).to_set().filter(
                |k: Seq<char>| prefix.is_prefix_of(k),
            );
            let ghost post_set = all.take(i + 1).to_set().filter(
                |k: Seq<char>| prefix.is_prefix_of(k),
            );
            proof {
                assert(keys@[i as int]@ == all[i as int]);
                assert(all.take(i + 1) =~= all.take(i as int).push(all[i as int]));
            }
            if str_starts_with(keys[i].as_str(), pat.as_str()) {
                store.delete(keys[i].as_str());
                proof {
                    assert(post_set =~= pre_set.insert(all[i as int])) by {
                        assert forall|k: Seq<char>| post_set.contains(k) implies pre_set.insert(
                            all[i as int],
                        ).contains(k) by {
                            if k != all[i as int] {
                                assert(all.take(i as int).push(all[i as int]).contains(k));
                                let j = choose|j: int|
                                    0 <= j < i + 1 && #[trigger] all.take(i + 1)[j] == k;
                                assert(all.take(i as int)[j] == k);
                            }
                        }
                        assert forall|k: Seq<char>| pre_set.insert(all[i as int]).contains(
                            k,
                        ) implies post_set.contains(k) by {
                            if k == all[i as int] {
                                assert(all.take(i + 1)[i as int] == k);
                            } else {
                                let j = choose|j: int|
                                    0 <= j < i && #[trigger] all.take(i as int)[j] == k;
                                assert(all.take(i + 1)[j] == k);
                            }
                        }
                    }
                    assert(store@ =~= old_store@.remove_keys(post_set));
                }
            } else {
                proof {
                    assert(post_set =~= pre_set) by {
                        assert forall|k: Seq<char>| post_set.contains(k) implies pre_set.contains(
                            k,
                        ) by {
                            assert(prefix.is_prefix_of(k));
                            assert(k != all[i as int]);
                            let j = choose|j: int|
                                0 <= j < i + 1 && #[trigger] all.take(i + 1)[j] == k;
                            assert(all.take(i as int)[j] == k);
                        }
                        assert forall|k: Seq<char>| pre_set.contains(k) implies post_set.contains(
                            k,
                        ) by {
                            let j = choose|j: int|
                                0 <= j < i && #[trigger] all.take(i as int)[j] == k;
                            assert(all.take(i + 1)[j] == k);
                        }
                    }
                }
            }
            i = i + 1;
        }
        proof {
            assert(all.take(all.len() as int) =~= all);
            old_store.lemma_key_seq_dom();
            assert(all.to_set().filter(|k: Seq<char>| prefix.is_prefix_of(k))
                =~= old_store@.dom().filter(|k: Seq<char>| prefix.is_prefix_of(k))) by {
                assert forall|k: Seq<char>| #[trigger] all.to_set().contains(k)
                    <==> old_store@.dom().contains(k) by {
                    assert(all.to_set().contains(k) == all.contains(k));
                }
            }
        }
    }

    /// Decide whether a fetch is needed for `spec`: the package is already
    /// present, or the archive at the returned URL must be fetched.  Only
    /// the `preview` namespace supports fetching.
    pub fn download_package(&self, store: &Store, spec: &WasmPackageSpec) -> (r: Result<
        DownloadPlan,
        FileError,
    >)
        requires
            store.wf(),
        ensures
            store@.contains_key(marker_key_of(spec@)) ==> (r matches Ok(plan) && plan
                is AlreadyPresent),
            !store@.contains_key(marker_key_of(spec@)) && spec@.namespace == "preview"@ ==> (r
                matches Ok(plan) && plan matches DownloadPlan::Fetch(url) && url@ == url_of(
                spec@,
            )),
            !store@.contains_key(marker_key_of(spec@)) && spec@.namespace != "preview"@ ==> r
                == Err::<DownloadPlan, FileError>(FileError::AccessDenied),
    {
        let key = spec.package_directory_key();
        if store.contains(key.as_str()) {
            return Ok(DownloadPlan::AlreadyPresent);
        }
        if !str_eq(spec.namespace.as_str(), "preview") {
            return Err(FileError::AccessDenied);
        }
        let mut url = String::from_str("https://packages.typst.org/preview/");
        url.append(spec.name.as_str());
        push_char(&mut url, '-');
        let v = spec.version.to_version_string();
        url.append(v.as_str());
        url.append(".tar.gz");
        proof {
            assert(url@ =~= url_of(spec@));
        }
        Ok(DownloadPlan::Fetch(url))
    }

    /// [`PackageManager::download_package`], from a coordinate in spec-string
    /// form.  A string that is no coordinate fails with a parse error.
    pub fn download_package_from_str(&self, store: &Store, spec: &str) -> (r: Result<
        DownloadPlan,
        FileError,
    >)
        requires
            store.wf(),
        ensures
            spec_coord_of(spec@) is None ==> r == Err::<DownloadPlan, FileError>(FileError::Parse),
            spec_coord_of(spec@) matches Some(p) ==> {
                &&& store@.contains_key(marker_key_of(p)) ==> (r matches Ok(plan) && plan
                    is AlreadyPresent)
                &&& !store@.contains_key(marker_key_of(p)) && p.namespace == "preview"@ ==> (r
                    matches Ok(plan) && plan matches DownloadPlan::Fetch(url) && url@ == url_of(
                    p,
                ))
                &&& !store@.contains_key(marker_key_of(p)) && p.namespace != "preview"@ ==> r
                    == Err::<DownloadPlan, FileError>(FileError::AccessDenied)
            },
    {
        match parse_spec_string(spec) {
            Some(p) => {
                proof {
                    assert(spec_coord_of(spec@) == Some(p@)) by {
                        let q = choose|q: PackageSpecView|
                            valid_coord(q) && spec@ == crate::codec::spec_string_of(q);
                        lemma_spec_string_injective(p@, q);
                    }
                }
                self.download_package(store, &p)
            },
            None => Err(FileError::Parse),
        }
    }

    /// Unpack a fetched archive into the store: gunzip, untar, write each
    /// entry under the package directory in archive order, then write the
    /// marker key (with empty value) last.  A malformed archive fails with
    /// `Extraction`; an entry whose path would escape the package directory
    /// fails with `AccessDenied`.  Entries already written stay written:
    /// nothing is rolled back, and only a complete installation writes the
    /// marker.
    pub fn install_archive(&self, store: &mut Store, spec: &WasmPackageSpec, data: Vec<u8>) -> (r:
        Result<(), FileError>)
        requires
            old(store).wf(),
        ensures
            final(store).wf(),
            match gunzip_of(data@) {
                None => r == Err::<(), FileError>(FileError::Extraction) && final(store)@ == old(
                    store,
                )@,
                Some(tarball) => match tar_entries_of(tarball) {
                    None => r == Err::<(), FileError>(FileError::Extraction) && final(store)@
                        == old(store)@,
                    Some(entries) => {
                        let dir = storage_path_of(spec@);
                        if entries_stay_inside(dir, entries, entries.len() as int) {
                            &&& r == Ok::<(), FileError>(())
                            &&& final(store)@ == stored_after(
                                old(store)@,
                                dir,
                                entries,
                                entries.len() as int,
                            ).insert(marker_key_of(spec@), Seq::<u8>::empty())
                            &&& final(store)@.contains_key(marker_key_of(spec@))
                        } else {
                            &&& r == Err::<(), FileError>(FileError::AccessDenied)
                            &&& exists|b: int|
                                0 <= b < entries.len() && entries_stay_inside(dir, entries, b)
                                    && rooted_join(dir, (#[trigger] entries[b]).path) is None
                                    && final(store)@ == stored_after(old(store)@, dir, entries, b)
                        }
                    },
                },
            },
    {
        let ghost old_store = *store;
        let tarball = match gunzip(&data) {
            Some(t) => t,
            None => {
                return Err(FileError::Extraction);
            },
        };
        let ghost tbv = tarball@;
        let entries = match untar(&tarball) {
            Some(es) => es,
            None => {
                return Err(FileError::Extraction);
            },
        };
        let ghost evs = entries.deep_view();
        let dir = spec.package_directory();
        let ghost dirv = storage_path_of(spec@);
        let mut i: usize = 0;
        while i < entries.len()
            invariant
                old_store == *old(store),
                gunzip_of(data@) == Some(tbv),
                tar_entries_of(tbv) == Some(evs),
                dirv == storage_path_of(spec@),
                dir@ == dirv,
                evs == entries.deep_view(),
                entries@.len() == evs.len(),
                0 <= i <= evs.len(),
                store.wf(),
                entries_stay_inside(dirv, evs, i as int),
                store@ == stored_after(old_store@, dirv, evs, i as int),
            decreases entries@.len() - i,
        {
            proof {
                assert(entries@[i as int]@ == evs[i as int]);
            }
            let entry = &entries[i];
            match join_rooted(dir.as_str(), entry.path.as_str()) {
                Some(key) => {
                    let value = crate::strutil::clone_bytes(&entry.bytes);
                    store.set(key.as_str(), value);
                    proof {
                        assert(store@ == stored_after(old_store@, dirv, evs, i + 1));
                    }
                },
                None => {
                    proof {
                        assert(rooted_join(dirv, evs[i as int].path) is None);
                    }
                    return Err(FileError::AccessDenied);
                },
            }
            i = i + 1;
        }
        let marker = spec.package_directory_key();
        store.set(marker.as_str(), Vec::new());
        proof {
            assert(entries_stay_inside(dirv, evs, evs.len() as int));
        }
        Ok(())
    }
}

/// Once every key under a package's prefix is gone, listing parses no
/// remaining key to that coordinate: a deleted package is no longer listed.
pub proof fn lemma_deleted_not_listed(keys: Seq<Seq<char>>, p: PackageSpecView)
    requires
        valid_coord(p),
        forall|i: int| 0 <= i < keys.len() ==> !package_prefix_of(p).is_prefix_of(#[trigger] keys[i]),
    ensures
        !spec_list_packages(keys).contains(p),
{
    let f = |k: Seq<char>| marker_coord_of(k);
    if spec_list_packages(keys).contains(p) {
        keys.lemma_filter_map_contains(f, p);
        let k = choose|k: Seq<char>| #[trigger] keys.contains(k) && f(k) == Some(p);
        let q = choose|q: PackageSpecView| valid_coord(q) && k == marker_key_of(q);
        assert(valid_coord(q) && k == marker_key_of(q));
        assert(q == p);
        assert(package_prefix_of(p).is_prefix_of(k)) by {
            assert(k == marker_key_of(p));
            assert(marker_key_of(p).subrange(0, package_prefix_of(p).len() as int)
                =~= package_prefix_of(p));
        }
        let i = choose|i: int| 0 <= i < keys.len() && keys[i] == k;
        assert(!package_prefix_of(p).is_prefix_of(keys[i]));
    }
}

/// A store holding a package's marker key lists its coordinate: an installed
/// package is listed.
pub proof fn lemma_installed_listed(keys: Seq<Seq<char>>, p: PackageSpecView)
    requires
        valid_coord(p),
        keys.contains(marker_key_of(p)),
    ensures
        spec_list_packages(keys).contains(p),
    decreases keys.len(),
{
    let f = |k: Seq<char>| marker_coord_of(k);
    lemma_marker_key_round_trip(p);
    if keys.last() == marker_key_of(p) {
        assert(keys.filter_map(f) == keys.drop_last().filter_map(f) + seq![p]);
        assert(keys.filter_map(f).last() == p);
    } else {
        assert(keys.drop_last().contains(marker_key_of(p))) by {
            let i = choose|i: int| 0 <= i < keys.len() && keys[i] == marker_key_of(p);
            assert(keys.drop_last()[i] == marker_key_of(p));
        }
        lemma_installed_listed(keys.drop_last(), p);
        let rest = keys.drop_last().filter_map(f);
        let j = choose|j: int| 0 <= j < rest.len() && rest[j] == p;
        match f(keys.last()) {
            Some(q) => {
                assert(keys.filter_map(f)[j] == p);
            },
            None => {
                assert(keys.filter_map(f)[j] == p);
            },
        }
    }
}

/// Preparing a coordinate whose marker key is present is a cache hit: the
/// root comes back with no fetch needed.  With
/// [`PackageManager::install_archive`] writing the marker on success and
/// [`PackageManager::download_package`] planning no fetch over a present
/// marker, two `prepare_package` calls around one installation perform at
/// most one fetch.
pub proof fn lemma_prepare_idempotent(store: Map<Seq<char>, Seq<u8>>, p: PackageSpecView)
    requires
        p.namespace == "preview"@,
        store.contains_key(marker_key_of(p)),
    ensures
        spec_prepare_package(store, p) == Ok::<Seq<char>, FileError>(storage_path_of(p)),
{
}

} // verus!
