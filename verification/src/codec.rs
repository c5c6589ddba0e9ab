//! Package coordinates and their two textual encodings.
//!
//! A coordinate names a dependency bundle by namespace, name and semantic
//! version.  It has a compact spec-string form
//! `@namespace/name:major.minor.patch` and a storage-path form
//! `packages/namespace/name/major.minor.patch`; the marker key
//! `packages/namespace/name/major.minor.patch/.` denotes an installed
//! package.  Both codecs are canonical: a parser accepts a string if and only
//! if it is exactly what the formatter produces for some valid coordinate.

use vstd::prelude::*;

use crate::decimal::dec_digits;
use crate::decimal::is_digit_char;
use crate::decimal::lemma_dec_digits_canonical;
use crate::decimal::parse_canonical_u32;
use crate::decimal::u32_to_string;
use crate::strutil::find_char_from;
use crate::strutil::has_no_char;
use crate::strutil::push_char;

verus! {

/// A semantic version triple.
#[derive(Clone, Copy, Debug, PartialEq, Eq, Structural)]
pub struct WasmVersion {
    pub major: u32,
    pub minor: u32,
    pub patch: u32,
}

/// A package coordinate: a namespace, a name, and a version.
#[derive(Clone, Debug)]
pub struct WasmPackageSpec {
    pub namespace: String,
    pub name: String,
    pub version: WasmVersion,
}

/// The mathematical image of a coordinate.
pub ghost struct PackageSpecView {
    pub namespace: Seq<char>,
    pub name: Seq<char>,
    pub version: WasmVersion,
}

impl View for WasmPackageSpec {
    type V = PackageSpecView;

    open spec fn view(&self) -> PackageSpecView {
        PackageSpecView { namespace: self.namespace@, name: self.name@, version: self.version }
    }
}

impl DeepView for WasmPackageSpec {
    type V = PackageSpecView;

    open spec fn deep_view(&self) -> PackageSpecView {
        self.view()
    }
}

impl WasmPackageSpec {
    /// A copy of the coordinate with the same components.
    pub fn duplicate(&self) -> (p: WasmPackageSpec)
        ensures
            p@ == self@,
    {
        WasmPackageSpec {
            namespace: self.namespace.clone(),
            name: self.name.clone(),
            version: self.version,
        }
    }
}

/// The notation `major.minor.patch`.
pub open spec fn version_chars(v: WasmVersion) -> Seq<char> {
    dec_digits(v.major as nat) + seq!['.'] + dec_digits(v.minor as nat) + seq!['.'] + dec_digits(
        v.patch as nat,
    )
}

/// A namespace or a name: nonempty, and free of the two separators that the
/// encodings reserve.
pub open spec fn valid_component(s: Seq<char>) -> bool {
    &&& s.len() > 0
    &&& has_no_char(s, '/')
    &&& has_no_char(s, ':')
}

/// A coordinate whose components both encodings can carry.
pub open spec fn valid_coord(p: PackageSpecView) -> bool {
    valid_component(p.namespace) && valid_component(p.name)
}

/// The compact form `@namespace/name:major.minor.patch`.
pub open spec fn spec_string_of(p: PackageSpecView) -> Seq<char> {
    seq!['@'] + p.namespace + seq!['/'] + p.name + seq![':'] + version_chars(p.version)
}

/// The storage form `packages/namespace/name/major.minor.patch`.
pub open spec fn storage_path_of(p: PackageSpecView) -> Seq<char> {
    "packages/"@ + p.namespace + seq!['/'] + p.name + seq!['/'] + version_chars(p.version)
}

/// The prefix shared by every store key of the package.
pub open spec fn package_prefix_of(p: PackageSpecView) -> Seq<char> {
    storage_path_of(p) + seq!['/']
}

/// The sentinel key whose presence means the package is installed.
pub open spec fn marker_key_of(p: PackageSpecView) -> Seq<char> {
    storage_path_of(p) + seq!['/', '.']
}

impl WasmVersion {
    /// A version from its three components.
    pub fn new(major: u32, minor: u32, patch: u32) -> (v: WasmVersion)
        ensures
            v == (WasmVersion { major, minor, patch }),
    {
        WasmVersion { major, minor, patch }
    }

    /// The notation `major.minor.patch`.
    pub fn to_version_string(&self) -> (s: String)
        ensures
            s@ == version_chars(*self),
    {
        let mut s = u32_to_string(self.major);
        push_char(&mut s, '.');
        let minor = u32_to_string(self.minor);
        s.append(minor.as_str());
        push_char(&mut s, '.');
        let patch = u32_to_string(self.patch);
        s.append(patch.as_str());
        proof {
            assert(s@ =~= version_chars(*self));
        }
        s
    }
}

impl WasmPackageSpec {
    /// A coordinate from its three components.
    pub fn new(namespace: String, name: String, version: WasmVersion) -> (p: WasmPackageSpec)
        ensures
            p@ == (PackageSpecView { namespace: namespace@, name: name@, version }),
    {
        WasmPackageSpec { namespace, name, version }
    }

    /// The namespace, as a fresh string.
    pub fn namespace(&self) -> (s: String)
        ensures
            s@ == self@.namespace,
    {
        self.namespace.clone()
    }

    /// The name, as a fresh string.
    pub fn name(&self) -> (s: String)
        ensures
            s@ == self@.name,
    {
        self.name.clone()
    }

    /// Replace the namespace.
    pub fn set_namespace(&mut self, namespace: &str)
        ensures
            final(self)@ == (PackageSpecView { namespace: namespace@, ..old(self)@ }),
    {
        self.namespace = namespace.to_owned();
    }

    /// Replace the name.
    pub fn set_name(&mut self, name: &str)
        ensures
            final(self)@ == (PackageSpecView { name: name@, ..old(self)@ }),
    {
        self.name = name.to_owned();
    }

    /// The storage directory `packages/namespace/name/major.minor.patch`.
    pub fn package_directory(&self) -> (s: String)
        ensures
            s@ == storage_path_of(self@),
    {
        let mut s = String::from_str("packages/");
        s.append(self.namespace.as_str());
        push_char(&mut s, '/');
        s.append(self.name.as_str());
        push_char(&mut s, '/');
        let v = self.version.to_version_string();
        s.append(v.as_str());
        proof {
            assert(s@ =~= storage_path_of(self@));
        }
        s
    }

    /// The marker key `packages/namespace/name/major.minor.patch/.`.
    pub fn package_directory_key(&self) -> (s: String)
        ensures
            s@ == marker_key_of(self@),
    {
        let mut s = self.package_directory();
        push_char(&mut s, '/');
        push_char(&mut s, '.');
        proof {
            assert(s@ =~= marker_key_of(self@));
        }
        s
    }

    /// The compact form `@namespace/name:major.minor.patch`.
    pub fn to_spec_string(&self) -> (s: String)
        ensures
            s@ == spec_string_of(self@),
    {
        let mut s = String::new();
        push_char(&mut s, '@');
        s.append(self.namespace.as_str());
        push_char(&mut s, '/');
        s.append(self.name.as_str());
        push_char(&mut s, ':');
        let v = self.version.to_version_string();
        s.append(v.as_str());
        proof {
            assert(s@ =~= spec_string_of(self@));
        }
        s
    }
}

/// Every character of a version notation is a digit or a dot.
proof fn lemma_version_chars_shape(v: WasmVersion)
    ensures
        forall|i: int|
            0 <= i < version_chars(v).len() ==> (is_digit_char(#[trigger] version_chars(v)[i])
                || version_chars(v)[i] == '.'),
        version_chars(v).len() >= 5,
{
    lemma_dec_digits_canonical(v.major as nat);
    lemma_dec_digits_canonical(v.minor as nat);
    lemma_dec_digits_canonical(v.patch as nat);
}

/// A version notation never contains a character that is neither digit nor
/// dot; in particular none of the separators of the two encodings.
proof fn lemma_version_chars_free(v: WasmVersion, c: char)
    requires
        !is_digit_char(c),
        c != '.',
    ensures
        has_no_char(version_chars(v), c),
{
    lemma_version_chars_shape(v);
}

/// Two notations agreeing around a separator that neither head contains
/// agree piecewise.
proof fn lemma_unique_sep_split(a1: Seq<char>, b1: Seq<char>, a2: Seq<char>, b2: Seq<char>, sep: char)
    requires
        a1 + seq![sep] + b1 == a2 + seq![sep] + b2,
        has_no_char(a1, sep),
        has_no_char(a2, sep),
    ensures
        a1 == a2,
        b1 == b2,
{
    let s = a1 + seq![sep] + b1;
    if a1.len() < a2.len() {
        assert(s[a1.len() as int] == sep);
        assert(s[a1.len() as int] == a2[a1.len() as int]);
        assert(false);
    } else if a2.len() < a1.len() {
        assert(s[a2.len() as int] == sep);
        assert(s[a2.len() as int] == a1[a2.len() as int]);
        assert(false);
    } else {
        let t = a2 + seq![sep] + b2;
        assert(s.len() == t.len());
        assert(b1.len() == b2.len());
        assert forall|i: int| 0 <= i < a1.len() implies a1[i] == a2[i] by {
            assert(s[i] == a1[i]);
            assert(t[i] == a2[i]);
        }
        assert(a1 =~= a2);
        assert forall|i: int| 0 <= i < b1.len() implies b1[i] == b2[i] by {
            assert(s[a1.len() + 1 + i] == b1[i]);
            assert(t[a2.len() + 1 + i] == b2[i]);
        }
        assert(b1 =~= b2);
    }
}

/// The canonical decimal codec is injective.
proof fn lemma_dec_digits_injective(a: nat, b: nat)
    requires
        dec_digits(a) == dec_digits(b),
    ensures
        a == b,
{
    lemma_dec_digits_canonical(a);
    lemma_dec_digits_canonical(b);
}

/// The version notation is injective.
proof fn lemma_version_chars_injective(v1: WasmVersion, v2: WasmVersion)
    requires
        version_chars(v1) == version_chars(v2),
    ensures
        v1 == v2,
{
    lemma_dec_digits_canonical(v1.major as nat);
    lemma_dec_digits_canonical(v2.major as nat);
    lemma_dec_digits_canonical(v1.minor as nat);
    lemma_dec_digits_canonical(v2.minor as nat);
    let tail1 = dec_digits(v1.minor as nat) + seq!['.'] + dec_digits(v1.patch as nat);
    let tail2 = dec_digits(v2.minor as nat) + seq!['.'] + dec_digits(v2.patch as nat);
    assert(dec_digits(v1.major as nat) + seq!['.'] + tail1 =~= version_chars(v1));
    assert(dec_digits(v2.major as nat) + seq!['.'] + tail2 =~= version_chars(v2));
    assert forall|i: int| 0 <= i < dec_digits(v1.major as nat).len() implies dec_digits(
        v1.major as nat,
    )[i] != '.' by {
        assert(is_digit_char(dec_digits(v1.major as nat)[i]));
    }
    assert forall|i: int| 0 <= i < dec_digits(v2.major as nat).len() implies dec_digits(
        v2.major as nat,
    )[i] != '.' by {
        assert(is_digit_char(dec_digits(v2.major as nat)[i]));
    }
    lemma_unique_sep_split(
        dec_digits(v1.major as nat),
        tail1,
        dec_digits(v2.major as nat),
        tail2,
        '.',
    );
    lemma_dec_digits_injective(v1.major as nat, v2.major as nat);
    assert forall|i: int| 0 <= i < dec_digits(v1.minor as nat).len() implies dec_digits(
        v1.minor as nat,
    )[i] != '.' by {
        assert(is_digit_char(dec_digits(v1.minor as nat)[i]));
    }
    assert forall|i: int| 0 <= i < dec_digits(v2.minor as nat).len() implies dec_digits(
        v2.minor as nat,
    )[i] != '.' by {
        assert(is_digit_char(dec_digits(v2.minor as nat)[i]));
    }
    lemma_unique_sep_split(
        dec_digits(v1.minor as nat),
        dec_digits(v1.patch as nat),
        dec_digits(v2.minor as nat),
        dec_digits(v2.patch as nat),
        '.',
    );
    lemma_dec_digits_injective(v1.minor as nat, v2.minor as nat);
    lemma_dec_digits_injective(v1.patch as nat, v2.patch as nat);
}

/// Parse the notation `major.minor.patch`.  Accepts exactly the canonical
/// notation of some version.
pub fn parse_version(s: &str) -> (r: Option<WasmVersion>)
    ensures
        match r {
            Some(v) => s@ == version_chars(v),
            None => forall|v: WasmVersion| s@ != version_chars(v),
        },
{
    let n = s.unicode_len();
    let d1 = match find_char_from(s, '.', 0) {
        Some(i) => i,
        None => {
            proof {
                assert forall|v: WasmVersion| s@ != version_chars(v) by {
                    if s@ == version_chars(v) {
                        assert(version_chars(v)[dec_digits(v.major as nat).len() as int] == '.');
                    }
                }
            }
            return None;
        },
    };
    let major = match parse_canonical_u32(s.substring_char(0, d1)) {
        Some(m) => m,
        None => {
            proof {
                assert forall|v: WasmVersion| s@ != version_chars(v) by {
                    if s@ == version_chars(v) {
                        let dm = dec_digits(v.major as nat);
                        lemma_dec_digits_canonical(v.major as nat);
                        assert forall|j: int| 0 <= j < dm.len() implies version_chars(v)[j]
                            != '.' by {
                            assert(version_chars(v)[j] == dm[j]);
                            assert(is_digit_char(dm[j]));
                        }
                        assert(version_chars(v)[dm.len() as int] == '.');
                        assert(d1 == dm.len());
                        assert(s@.subrange(0, d1 as int) =~= dm);
                    }
                }
            }
            return None;
        },
    };
    let d2 = match find_char_from(s, '.', d1 + 1) {
        Some(i) => i,
        None => {
            proof {
                assert forall|v: WasmVersion| s@ != version_chars(v) by {
                    if s@ == version_chars(v) {
                        let dm = dec_digits(v.major as nat);
                        let dn = dec_digits(v.minor as nat);
                        lemma_dec_digits_canonical(v.major as nat);
                        assert forall|j: int| 0 <= j < dm.len() implies version_chars(v)[j]
                            != '.' by {
                            assert(version_chars(v)[j] == dm[j]);
                            assert(is_digit_char(dm[j]));
                        }
                        assert(version_chars(v)[dm.len() as int] == '.');
                        assert(d1 == dm.len());
                        assert(version_chars(v)[dm.len() + 1 + dn.len() as int] == '.');
                    }
                }
            }
            return None;
        },
    };
    let minor = match parse_canonical_u32(s.substring_char(d1 + 1, d2)) {
        Some(m) => m,
        None => {
            proof {
                assert forall|v: WasmVersion| s@ != version_chars(v) by {
                    if s@ == version_chars(v) {
                        let dm = dec_digits(v.major as nat);
                        let dn = dec_digits(v.minor as nat);
                        lemma_dec_digits_canonical(v.major as nat);
                        lemma_dec_digits_canonical(v.minor as nat);
                        assert forall|j: int| 0 <= j < dm.len() implies version_chars(v)[j]
                            != '.' by {
                            assert(version_chars(v)[j] == dm[j]);
                            assert(is_digit_char(dm[j]));
                        }
                        assert(version_chars(v)[dm.len() as int] == '.');
                        assert(d1 == dm.len());
                        assert forall|j: int|
                            dm.len() + 1 <= j < dm.len() + 1 + dn.len() implies version_chars(v)[j]
                            != '.' by {
                            assert(version_chars(v)[j] == dn[j - (dm.len() + 1)]);
                            assert(is_digit_char(dn[j - (dm.len() + 1)]));
                        }
                        assert(version_chars(v)[dm.len() + 1 + dn.len() as int] == '.');
                        assert(d2 == dm.len() + 1 + dn.len());
                        assert(s@.subrange(d1 + 1, d2 as int) =~= dn);
                    }
                }
            }
            return None;
        },
    };
    let patch = match parse_canonical_u32(s.substring_char(d2 + 1, n)) {
        Some(m) => m,
        None => {
            proof {
                assert forall|v: WasmVersion| s@ != version_chars(v) by {
                    if s@ == version_chars(v) {
                        let dm = dec_digits(v.major as nat);
                        let dn = dec_digits(v.minor as nat);
                        let dp = dec_digits(v.patch as nat);
                        lemma_dec_digits_canonical(v.major as nat);
                        lemma_dec_digits_canonical(v.minor as nat);
                        assert forall|j: int| 0 <= j < dm.len() implies version_chars(v)[j]
                            != '.' by {
                            assert(version_chars(v)[j] == dm[j]);
                            assert(is_digit_char(dm[j]));
                        }
                        assert(version_chars(v)[dm.len() as int] == '.');
                        assert(d1 == dm.len());
                        assert forall|j: int|
                            dm.len() + 1 <= j < dm.len() + 1 + dn.len() implies version_chars(v)[j]
                            != '.' by {
                            assert(version_chars(v)[j] == dn[j - (dm.len() + 1)]);
                            assert(is_digit_char(dn[j - (dm.len() + 1)]));
                        }
                        assert(version_chars(v)[dm.len() + 1 + dn.len() as int] == '.');
                        assert(d2 == dm.len() + 1 + dn.len());
                        assert(s@.subrange(d2 + 1, n as int) =~= dp);
                    }
                }
            }
            return None;
        },
    };
    let v = WasmVersion { major, minor, patch };
    proof {
        assert(s@ =~= version_chars(v));
    }
    Some(v)
}

/// Where every piece of a coordinate's spec string lies.
proof fn lemma_spec_string_facts(s: Seq<char>, p: PackageSpecView)
    requires
        valid_coord(p),
        s == spec_string_of(p),
    ensures
        s.len() == 3 + p.namespace.len() + p.name.len() + version_chars(p.version).len(),
        s[0] == '@',
        forall|j: int| 1 <= j < 1 + p.namespace.len() ==> s[j] != '/' && s[j] != ':',
        s[1 + p.namespace.len() as int] == '/',
        forall|j: int|
            2 + p.namespace.len() <= j < 2 + p.namespace.len() + p.name.len() ==> s[j] != ':'
                && s[j] != '/',
        s[2 + p.namespace.len() + p.name.len() as int] == ':',
        forall|j: int| 3 + p.namespace.len() + p.name.len() <= j < s.len() ==> s[j] != ':',
        s.subrange(1, 1 + p.namespace.len() as int) == p.namespace,
        s.subrange(
            2 + p.namespace.len() as int,
            2 + p.namespace.len() + p.name.len() as int,
        ) == p.name,
        s.subrange(3 + p.namespace.len() + p.name.len() as int, s.len() as int) == version_chars(
            p.version,
        ),
{
    lemma_version_chars_free(p.version, ':');
    lemma_version_chars_free(p.version, '/');
    let ns = p.namespace;
    let nm = p.name;
    let vc = version_chars(p.version);
    assert forall|j: int| 1 <= j < 1 + ns.len() implies s[j] != '/' && s[j] != ':' by {
        assert(s[j] == ns[j - 1]);
    }
    assert forall|j: int|
        2 + ns.len() <= j < 2 + ns.len() + nm.len() implies s[j] != ':' && s[j] != '/' by {
        assert(s[j] == nm[j - (2 + ns.len())]);
    }
    assert forall|j: int| 3 + ns.len() + nm.len() <= j < s.len() implies s[j] != ':' by {
        assert(s[j] == vc[j - (3 + ns.len() + nm.len())]);
    }
    assert(s.subrange(1, 1 + ns.len() as int) =~= ns);
    assert(s.subrange(2 + ns.len() as int, 2 + ns.len() + nm.len() as int) =~= nm);
    assert(s.subrange(3 + ns.len() + nm.len() as int, s.len() as int) =~= vc);
}

/// Parse the compact form `@namespace/name:major.minor.patch`.  Accepts
/// exactly the spec string of some valid coordinate.
pub fn parse_spec_string(s: &str) -> (r: Option<WasmPackageSpec>)
    ensures
        match r {
            Some(p) => valid_coord(p@) && s@ == spec_string_of(p@),
            None => forall|p: PackageSpecView| valid_coord(p) ==> s@ != spec_string_of(p),
        },
{
    let n = s.unicode_len();
    if n == 0 || s.get_char(0) != '@' {
        proof {
            assert forall|p: PackageSpecView| valid_coord(p) implies s@ != spec_string_of(p) by {
                if s@ == spec_string_of(p) {
                    lemma_spec_string_facts(s@, p);
                }
            }
        }
        return None;
    }
    let slash = match find_char_from(s, '/', 1) {
        Some(i) => i,
        None => {
            proof {
                assert forall|p: PackageSpecView| valid_coord(p) implies s@ != spec_string_of(
                    p,
                ) by {
                    if s@ == spec_string_of(p) {
                        lemma_spec_string_facts(s@, p);
                    }
                }
            }
            return None;
        },
    };
    if slash == 1 {
        proof {
            assert forall|p: PackageSpecView| valid_coord(p) implies s@ != spec_string_of(p) by {
                if s@ == spec_string_of(p) {
                    lemma_spec_string_facts(s@, p);
                    assert(s@[1 + p.namespace.len() as int] == '/');
                }
            }
        }
        return None;
    }
    let ns_str = s.substring_char(1, slash);
    if find_char_from(ns_str, ':', 0).is_some() {
        proof {
            assert forall|p: PackageSpecView| valid_coord(p) implies s@ != spec_string_of(p) by {
                if s@ == spec_string_of(p) {
                    lemma_spec_string_facts(s@, p);
                    assert(slash == 1 + p.namespace.len());
                    assert(ns_str@ =~= p.namespace);
                }
            }
        }
        return None;
    }
    let colon = match find_char_from(s, ':', slash + 1) {
        Some(i) => i,
        None => {
            proof {
                assert forall|p: PackageSpecView| valid_coord(p) implies s@ != spec_string_of(
                    p,
                ) by {
                    if s@ == spec_string_of(p) {
                        lemma_spec_string_facts(s@, p);
                        assert(s@[2 + p.namespace.len() + p.name.len() as int] == ':');
                    }
                }
            }
            return None;
        },
    };
    if colon == slash + 1 {
        proof {
            assert forall|p: PackageSpecView| valid_coord(p) implies s@ != spec_string_of(p) by {
                if s@ == spec_string_of(p) {
                    lemma_spec_string_facts(s@, p);
                    assert(slash == 1 + p.namespace.len());
                    assert(s@[2 + p.namespace.len() + p.name.len() as int] == ':');
                }
            }
        }
        return None;
    }
    let name_str = s.substring_char(slash + 1, colon);
    if find_char_from(name_str, '/', 0).is_some() {
        proof {
            assert forall|p: PackageSpecView| valid_coord(p) implies s@ != spec_string_of(p) by {
                if s@ == spec_string_of(p) {
                    lemma_spec_string_facts(s@, p);
                    assert(slash == 1 + p.namespace.len());
                    assert(colon == 2 + p.namespace.len() + p.name.len());
                    assert(name_str@ =~= p.name);
                }
            }
        }
        return None;
    }
    let v_str = s.substring_char(colon + 1, n);
    let version = match parse_version(v_str) {
        Some(v) => v,
        None => {
            proof {
                assert forall|p: PackageSpecView| valid_coord(p) implies s@ != spec_string_of(
                    p,
                ) by {
                    if s@ == spec_string_of(p) {
                        lemma_spec_string_facts(s@, p);
                        assert(slash == 1 + p.namespace.len());
                        assert(colon == 2 + p.namespace.len() + p.name.len());
                        assert(v_str@ =~= version_chars(p.version));
                    }
                }
            }
            return None;
        },
    };
    let p = WasmPackageSpec {
        namespace: String::from_str(ns_str),
        name: String::from_str(name_str),
        version,
    };
    proof {
        assert(s@ =~= spec_string_of(p@));
    }
    Some(p)
}

/// Where every piece of a coordinate's storage path lies.
proof fn lemma_storage_path_facts(s: Seq<char>, p: PackageSpecView)
    requires
        valid_coord(p),
        s == storage_path_of(p),
    ensures
        "packages/"@.len() == 9,
        s.len() == 11 + p.namespace.len() + p.name.len() + version_chars(p.version).len(),
        s.subrange(0, 9) == "packages/"@,
        forall|j: int| 9 <= j < 9 + p.namespace.len() ==> s[j] != '/' && s[j] != ':',
        s[9 + p.namespace.len() as int] == '/',
        forall|j: int|
            10 + p.namespace.len() <= j < 10 + p.namespace.len() + p.name.len() ==> s[j] != '/'
                && s[j] != ':',
        s[10 + p.namespace.len() + p.name.len() as int] == '/',
        s.subrange(9, 9 + p.namespace.len() as int) == p.namespace,
        s.subrange(
            10 + p.namespace.len() as int,
            10 + p.namespace.len() + p.name.len() as int,
        ) == p.name,
        s.subrange(11 + p.namespace.len() + p.name.len() as int, s.len() as int) == version_chars(
            p.version,
        ),
{
    reveal_strlit("packages/");
    lemma_version_chars_free(p.version, ':');
    lemma_version_chars_free(p.version, '/');
    let ns = p.namespace;
    let nm = p.name;
    let vc = version_chars(p.version);
    assert forall|j: int| 9 <= j < 9 + ns.len() implies s[j] != '/' && s[j] != ':' by {
        assert(s[j] == ns[j - 9]);
    }
    assert forall|j: int|
        10 + ns.len() <= j < 10 + ns.len() + nm.len() implies s[j] != '/' && s[j] != ':' by {
        assert(s[j] == nm[j - (10 + ns.len())]);
    }
    assert(s.subrange(0, 9) =~= "packages/"@);
    assert(s.subrange(9, 9 + ns.len() as int) =~= ns);
    assert(s.subrange(10 + ns.len() as int, 10 + ns.len() + nm.len() as int) =~= nm);
    assert(s.subrange(11 + ns.len() + nm.len() as int, s.len() as int) =~= vc);
}

/// Parse the storage form `packages/namespace/name/major.minor.patch`.
/// Accepts exactly the storage path of some valid coordinate.
pub fn parse_storage_path(s: &str) -> (r: Option<WasmPackageSpec>)
    ensures
        match r {
            Some(p) => valid_coord(p@) && s@ == storage_path_of(p@),
            None => forall|p: PackageSpecView| valid_coord(p) ==> s@ != storage_path_of(p),
        },
{
    let n = s.unicode_len();
    if n < 9 {
        proof {
            assert forall|p: PackageSpecView| valid_coord(p) implies s@ != storage_path_of(p) by {
                if s@ == storage_path_of(p) {
                    lemma_storage_path_facts(s@, p);
                }
            }
        }
        return None;
    }
    proof {
        reveal_strlit("packages/");
    }
    if !crate::strutil::str_eq(s.substring_char(0, 9), "packages/") {
        proof {
            assert forall|p: PackageSpecView| valid_coord(p) implies s@ != storage_path_of(p) by {
                if s@ == storage_path_of(p) {
                    lemma_storage_path_facts(s@, p);
                    assert(s@.subrange(0, 9) == "packages/"@);
                }
            }
        }
        return None;
    }
    let slash = match find_char_from(s, '/', 9) {
        Some(i) => i,
        None => {
            proof {
                assert forall|p: PackageSpecView| valid_coord(p) implies s@ != storage_path_of(
                    p,
                ) by {
                    if s@ == storage_path_of(p) {
                        lemma_storage_path_facts(s@, p);
                        assert(s@[9 + p.namespace.len() as int] == '/');
                    }
                }
            }
            return None;
        },
    };
    if slash == 9 {
        proof {
            assert forall|p: PackageSpecView| valid_coord(p) implies s@ != storage_path_of(p) by {
                if s@ == storage_path_of(p) {
                    lemma_storage_path_facts(s@, p);
                    assert(s@[9 + p.namespace.len() as int] == '/');
                }
            }
        }
        return None;
    }
    let ns_str = s.substring_char(9, slash);
    if find_char_from(ns_str, ':', 0).is_some() {
        proof {
            assert forall|p: PackageSpecView| valid_coord(p) implies s@ != storage_path_of(p) by {
                if s@ == storage_path_of(p) {
                    lemma_storage_path_facts(s@, p);
                    assert(slash == 9 + p.namespace.len());
                    assert(ns_str@ =~= p.namespace);
                }
            }
        }
        return None;
    }
    let slash2 = match find_char_from(s, '/', slash + 1) {
        Some(i) => i,
        None => {
            proof {
                assert forall|p: PackageSpecView| valid_coord(p) implies s@ != storage_path_of(
                    p,
                ) by {
                    if s@ == storage_path_of(p) {
                        lemma_storage_path_facts(s@, p);
                        assert(slash == 9 + p.namespace.len());
                        assert(s@[10 + p.namespace.len() + p.name.len() as int] == '/');
                    }
                }
            }
            return None;
        },
    };
    if slash2 == slash + 1 {
        proof {
            assert forall|p: PackageSpecView| valid_coord(p) implies s@ != storage_path_of(p) by {
                if s@ == storage_path_of(p) {
                    lemma_storage_path_facts(s@, p);
                    assert(slash == 9 + p.namespace.len());
                    assert(s@[10 + p.namespace.len() + p.name.len() as int] == '/');
                }
            }
        }
        return None;
    }
    let name_str = s.substring_char(slash + 1, slash2);
    if find_char_from(name_str, ':', 0).is_some() {
        proof {
            assert forall|p: PackageSpecView| valid_coord(p) implies s@ != storage_path_of(p) by {
                if s@ == storage_path_of(p) {
                    lemma_storage_path_facts(s@, p);
                    assert(slash == 9 + p.namespace.len());
                    assert(slash2 == 10 + p.namespace.len() + p.name.len());
                    assert(name_str@ =~= p.name);
                }
            }
        }
        return None;
    }
    let v_str = s.substring_char(slash2 + 1, n);
    let version = match parse_version(v_str) {
        Some(v) => v,
        None => {
            proof {
                assert forall|p: PackageSpecView| valid_coord(p) implies s@ != storage_path_of(
                    p,
                ) by {
                    if s@ == storage_path_of(p) {
                        lemma_storage_path_facts(s@, p);
                        assert(slash == 9 + p.namespace.len());
                        assert(slash2 == 10 + p.namespace.len() + p.name.len());
                        assert(v_str@ =~= version_chars(p.version));
                    }
                }
            }
            return None;
        },
    };
    let p = WasmPackageSpec {
        namespace: String::from_str(ns_str),
        name: String::from_str(name_str),
        version,
    };
    proof {
        reveal_strlit("packages/");
        assert(s@ =~= storage_path_of(p@));
    }
    Some(p)
}

/// Parse a marker key `packages/namespace/name/major.minor.patch/.`.
/// Accepts exactly the marker key of some valid coordinate.
pub fn parse_marker_key(s: &str) -> (r: Option<WasmPackageSpec>)
    ensures
        match r {
            Some(p) => valid_coord(p@) && s@ == marker_key_of(p@),
            None => forall|p: PackageSpecView| valid_coord(p) ==> s@ != marker_key_of(p),
        },
{
    let n = s.unicode_len();
    if n < 2 || s.get_char(n - 1) != '.' || s.get_char(n - 2) != '/' {
        proof {
            assert forall|p: PackageSpecView| valid_coord(p) implies s@ != marker_key_of(p) by {
                if s@ == marker_key_of(p) {
                    assert(s@[s@.len() - 1] == '.');
                    assert(s@[s@.len() - 2] == '/');
                }
            }
        }
        return None;
    }
    let body = s.substring_char(0, n - 2);
    let r = parse_storage_path(body);
    proof {
        match &r {
            Some(p) => {
                assert(s@ =~= marker_key_of(p@));
            },
            None => {
                assert forall|p: PackageSpecView| valid_coord(p) implies s@ != marker_key_of(p) by {
                    if s@ == marker_key_of(p) {
                        assert(body@ =~= storage_path_of(p));
                    }
                }
            },
        }
    }
    r
}

/// The spec-string encoding is injective on valid coordinates: with the
/// parser's exactness this is the round trip `parse(format(p)) == p`.
pub proof fn lemma_spec_string_injective(p1: PackageSpecView, p2: PackageSpecView)
    requires
        valid_coord(p1),
        valid_coord(p2),
        spec_string_of(p1) == spec_string_of(p2),
    ensures
        p1 == p2,
{
    let rest1 = p1.name + seq![':'] + version_chars(p1.version);
    let rest2 = p2.name + seq![':'] + version_chars(p2.version);
    let x1 = p1.namespace + seq!['/'] + rest1;
    let x2 = p2.namespace + seq!['/'] + rest2;
    assert(spec_string_of(p1) =~= seq!['@'] + x1);
    assert(spec_string_of(p2) =~= seq!['@'] + x2);
    assert forall|i: int| 0 <= i < x1.len() implies x1[i] == x2[i] by {
        assert((seq!['@'] + x1)[i + 1] == x1[i]);
        assert((seq!['@'] + x2)[i + 1] == x2[i]);
    }
    assert(x1 =~= x2);
    lemma_unique_sep_split(p1.namespace, rest1, p2.namespace, rest2, '/');
    lemma_version_chars_free(p1.version, ':');
    lemma_version_chars_free(p2.version, ':');
    lemma_unique_sep_split(
        p1.name,
        version_chars(p1.version),
        p2.name,
        version_chars(p2.version),
        ':',
    );
    lemma_version_chars_injective(p1.version, p2.version);
}

/// The storage-path encoding is injective on valid coordinates: with the
/// parser's exactness this is the round trip `parse(format(p)) == p`.
pub proof fn lemma_storage_path_injective(p1: PackageSpecView, p2: PackageSpecView)
    requires
        valid_coord(p1),
        valid_coord(p2),
        storage_path_of(p1) == storage_path_of(p2),
    ensures
        p1 == p2,
{
    let rest1 = p1.name + seq!['/'] + version_chars(p1.version);
    let rest2 = p2.name + seq!['/'] + version_chars(p2.version);
    let x1 = p1.namespace + seq!['/'] + rest1;
    let x2 = p2.namespace + seq!['/'] + rest2;
    let pre = "packages/"@;
    assert(storage_path_of(p1) =~= pre + x1);
    assert(storage_path_of(p2) =~= pre + x2);
    assert forall|i: int| 0 <= i < x1.len() implies x1[i] == x2[i] by {
        assert((pre + x1)[pre.len() + i] == x1[i]);
        assert((pre + x2)[pre.len() + i] == x2[i]);
    }
    assert(x1 =~= x2);
    lemma_unique_sep_split(p1.namespace, rest1, p2.namespace, rest2, '/');
    lemma_version_chars_free(p1.version, '/');
    lemma_version_chars_free(p2.version, '/');
    lemma_unique_sep_split(
        p1.name,
        version_chars(p1.version),
        p2.name,
        version_chars(p2.version),
        '/',
    );
    lemma_version_chars_injective(p1.version, p2.version);
}

/// The coordinate whose spec string `s` is, if any.
pub open spec fn spec_coord_of(s: Seq<char>) -> Option<PackageSpecView> {
    if exists|p: PackageSpecView| valid_coord(p) && s == spec_string_of(p) {
        Some(choose|p: PackageSpecView| valid_coord(p) && s == spec_string_of(p))
    } else {
        None
    }
}

/// The coordinate whose storage path `s` is, if any.
pub open spec fn path_coord_of(s: Seq<char>) -> Option<PackageSpecView> {
    if exists|p: PackageSpecView| valid_coord(p) && s == storage_path_of(p) {
        Some(choose|p: PackageSpecView| valid_coord(p) && s == storage_path_of(p))
    } else {
        None
    }
}

/// The coordinate whose marker key `s` is, if any.
pub open spec fn marker_coord_of(s: Seq<char>) -> Option<PackageSpecView> {
    if exists|p: PackageSpecView| valid_coord(p) && s == marker_key_of(p) {
        Some(choose|p: PackageSpecView| valid_coord(p) && s == marker_key_of(p))
    } else {
        None
    }
}

/// Round trip: a valid coordinate's spec string parses back to the
/// coordinate itself.
pub proof fn lemma_spec_string_round_trip(p: PackageSpecView)
    requires
        valid_coord(p),
    ensures
        spec_coord_of(spec_string_of(p)) == Some(p),
{
    let q = choose|q: PackageSpecView| valid_coord(q) && spec_string_of(p) == spec_string_of(q);
    lemma_spec_string_injective(p, q);
}

/// Round trip: a valid coordinate's storage path parses back to the
/// coordinate itself.
pub proof fn lemma_storage_path_round_trip(p: PackageSpecView)
    requires
        valid_coord(p),
    ensures
        path_coord_of(storage_path_of(p)) == Some(p),
{
    let q = choose|q: PackageSpecView| valid_coord(q) && storage_path_of(p) == storage_path_of(q);
    lemma_storage_path_injective(p, q);
}

/// Round trip: a valid coordinate's marker key parses back to the
/// coordinate itself.
pub proof fn lemma_marker_key_round_trip(p: PackageSpecView)
    requires
        valid_coord(p),
    ensures
        marker_coord_of(marker_key_of(p)) == Some(p),
{
    let q = choose|q: PackageSpecView| valid_coord(q) && marker_key_of(p) == marker_key_of(q);
    lemma_marker_key_injective(p, q);
}

/// The marker-key encoding is injective on valid coordinates.
pub proof fn lemma_marker_key_injective(p1: PackageSpecView, p2: PackageSpecView)
    requires
        valid_coord(p1),
        valid_coord(p2),
        marker_key_of(p1) == marker_key_of(p2),
    ensures
        p1 == p2,
{
    let s1 = storage_path_of(p1);
    let s2 = storage_path_of(p2);
    assert(marker_key_of(p1).len() == s1.len() + 2);
    assert(marker_key_of(p2).len() == s2.len() + 2);
    assert(s1.len() == s2.len());
    assert forall|i: int| 0 <= i < s1.len() implies s1[i] == s2[i] by {
        assert(marker_key_of(p1)[i] == s1[i]);
        assert(marker_key_of(p2)[i] == s2[i]);
    }
    assert(s1 =~= s2);
    lemma_storage_path_injective(p1, p2);
}

} // verus!

