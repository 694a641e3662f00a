//! The package manifest: what a finished artifact knows about itself.
//! A manifest names the project, records when and with which features it
//! was packed, carries free-form metadata, and lists one entry per bundled
//! target.  Resolution picks the entry matching a host's platform and
//! architecture tags.

use vstd::prelude::*;
use crate::platform::{Arch, Platform};

verus! {

pub struct TargetEntry {
    pub platform: Platform,
    pub arch: Arch,
    pub binary_path: String,
    pub features: Vec<String>,
    pub optimizations: Option<String>,
    pub compatibility: Vec<String>,
}

pub struct Manifest {
    pub name: String,
    pub version: String,
    pub description: Option<String>,
    pub targets: Vec<TargetEntry>,
    pub created_at: String,
    /// A random token identifying one packaging run.  It is not a content
    /// digest; the content digest of an artifact lives outside the artifact,
    /// in its signature record.
    pub install_token: String,
    pub features: Vec<String>,
    pub metadata: Vec<(String, String)>,
}

/// The mathematical value of a target entry.
pub struct TargetEntryV {
    pub platform: Platform,
    pub arch: Arch,
    pub binary_path: Seq<char>,
    pub features: Seq<Seq<char>>,
    pub optimizations: Option<Seq<char>>,
    pub compatibility: Seq<Seq<char>>,
}

pub open spec fn targets_view(s: Seq<TargetEntry>) -> Seq<TargetEntryV> {
    s.map_values(|t: TargetEntry| t@)
}

/// The mathematical value of a manifest.
pub struct ManifestV {
    pub name: Seq<char>,
    pub version: Seq<char>,
    pub description: Option<Seq<char>>,
    pub targets: Seq<TargetEntryV>,
    pub created_at: Seq<char>,
    pub install_token: Seq<char>,
    pub features: Seq<Seq<char>>,
    pub metadata: Seq<(Seq<char>, Seq<char>)>,
}

impl View for TargetEntry {
    type V = TargetEntryV;

    open spec fn view(&self) -> TargetEntryV {
        TargetEntryV {
            platform: self.platform,
            arch: self.arch,
            binary_path: self.binary_path@,
            features: self.features.deep_view(),
            optimizations: match self.optimizations {
                Option::Some(s) => Option::Some(s@),
                Option::None => Option::None,
            },
            compatibility: self.compatibility.deep_view(),
        }
    }
}

impl View for Manifest {
    type V = ManifestV;

    open spec fn view(&self) -> ManifestV {
        ManifestV {
            name: self.name@,
            version: self.version@,
            description: match self.description {
                Option::Some(s) => Option::Some(s@),
                Option::None => Option::None,
            },
            targets: targets_view(self.targets@),
            created_at: self.created_at@,
            install_token: self.install_token@,
            features: self.features.deep_view(),
            metadata: self.metadata.deep_view(),
        }
    }
}

/// A target entry answers to the given platform and architecture tags.
pub open spec fn entry_matches(t: TargetEntryV, p: Platform, a: Arch) -> bool {
    t.platform == p && t.arch == a
}

/// Position `i` holds the first entry matching the tags.
pub open spec fn is_first_match(ts: Seq<TargetEntryV>, p: Platform, a: Arch, i: int) -> bool {
    &&& 0 <= i < ts.len()
    &&& entry_matches(ts[i], p, a)
    &&& forall|j: int| 0 <= j < i ==> !entry_matches(ts[j], p, a)
}

/// No two entries share a (platform, arch) pair.
pub open spec fn targets_unique(ts: Seq<TargetEntryV>) -> bool {
    forall|i: int, j: int|
        0 <= i < ts.len() && 0 <= j < ts.len() && i != j ==> !(ts[i].platform == ts[j].platform
            && ts[i].arch == ts[j].arch)
}

/// The manifest invariant: at least one target, and no duplicate
/// (platform, arch) pairs.
pub open spec fn manifest_well_formed(m: ManifestV) -> bool {
    m.targets.len() >= 1 && targets_unique(m.targets)
}

/// Scan the manifest's targets in stored order and return the index of the
/// first entry whose tags match the host's, if any.  This first-match rule
/// is the documented tie-break even for manifests that violate the
/// no-duplicates invariant.
pub fn resolve(m: &Manifest, p: Platform, a: Arch) -> (r: Option<usize>)
    ensures
        match r {
            Option::Some(i) => is_first_match(m@.targets, p, a, i as int),
            Option::None => forall|j: int|
                0 <= j < m@.targets.len() ==> !entry_matches(m@.targets[j], p, a),
        },
{
    let n = m.targets.len();
    let mut i: usize = 0;
    while i < n
        invariant
            n == m.targets@.len(),
            m@.targets.len() == n,
            0 <= i <= n,
            forall|j: int| 0 <= j < i ==> !entry_matches(m@.targets[j], p, a),
        decreases n - i,
    {
        let t = &m.targets[i];
        assert(m@.targets[i as int] == t@);
        if t.platform == p && t.arch == a {
            return Some(i);
        }
        i = i + 1;
    }
    None
}

/// In a manifest meeting the no-duplicates invariant, a match is unique:
/// whatever entry resolution returns is the only entry with those tags.
pub proof fn lemma_resolve_unambiguous(ts: Seq<TargetEntryV>, p: Platform, a: Arch)
    requires
        targets_unique(ts),
    ensures
        forall|i: int, j: int|
            0 <= i < ts.len() && 0 <= j < ts.len() && entry_matches(ts[i], p, a) && entry_matches(
                ts[j],
                p,
                a,
            ) ==> i == j,
{
}

/// Position `i` holds the first metadata pair with the given key.
pub open spec fn is_first_key(md: Seq<(Seq<char>, Seq<char>)>, k: Seq<char>, i: int) -> bool {
    &&& 0 <= i < md.len()
    &&& md[i].0 == k
    &&& forall|j: int| 0 <= j < i ==> md[j].0 != k
}

/// Look a key up in the manifest metadata; the first pair with that key
/// decides.
pub fn metadata_get<'a>(m: &'a Manifest, key: &str) -> (r: Option<&'a String>)
    ensures
        match r {
            Option::Some(v) => exists|i: int|
                is_first_key(m@.metadata, key@, i) && v@ == m@.metadata[i].1,
            Option::None => forall|j: int| 0 <= j < m@.metadata.len() ==> m@.metadata[j].0 != key@,
        },
{
    let n = m.metadata.len();
    let mut i: usize = 0;
    while i < n
        invariant
            n == m.metadata@.len(),
            m@.metadata.len() == n,
            0 <= i <= n,
            forall|j: int| 0 <= j < i ==> m@.metadata[j].0 != key@,
        decreases n - i,
    {
        assert(m@.metadata[i as int] == (m.metadata@[i as int].0@, m.metadata@[i as int].1@));
        if crate::chartext::str_eq(m.metadata[i].0.as_str(), key) {
            assert(is_first_key(m@.metadata, key@, i as int));
            return Some(&m.metadata[i].1);
        }
        i = i + 1;
    }
    None
}

/// Set a metadata key: overwrite the value of the first pair with that key,
/// or append a new pair when the key is absent.
pub fn metadata_set(m: &mut Manifest, key: String, value: String)
    ensures
        final(m)@ == (ManifestV { metadata: final(m)@.metadata, ..old(m)@ }),
        (forall|j: int| 0 <= j < old(m)@.metadata.len() ==> old(m)@.metadata[j].0 != key@)
            ==> final(m)@.metadata == old(m)@.metadata.push((key@, value@)),
        forall|i: int|
            is_first_key(old(m)@.metadata, key@, i) ==> final(m)@.metadata
                == old(m)@.metadata.update(i, (key@, value@)),
{
    let n = m.metadata.len();
    let mut i: usize = 0;
    while i < n
        invariant
            n == m.metadata@.len(),
            *m == *old(m),
            0 <= i <= n,
            forall|j: int| 0 <= j < i ==> m@.metadata[j].0 != key@,
        decreases n - i,
    {
        assert(m@.metadata[i as int] == (m.metadata@[i as int].0@, m.metadata@[i as int].1@));
        if crate::chartext::str_eq(m.metadata[i].0.as_str(), key.as_str()) {
            assert(is_first_key(old(m)@.metadata, key@, i as int));
            m.metadata[i] = (key, value);
            assert(final(m)@.metadata =~= old(m)@.metadata.update(i as int, (key@, value@)));
            assert(forall|d: int|
                is_first_key(old(m)@.metadata, key@, d) ==> d == i as int);
            return ;
        }
        i = i + 1;
    }
    m.metadata.push((key, value));
    assert(final(m)@.metadata =~= old(m)@.metadata.push((key@, value@)));
}

/// Record an update endpoint in the manifest: the `update_url` metadata key
/// is set and the `auto_update` feature tag is advertised.
pub fn setup_auto_update(update_url: &str, package_info: &mut Manifest)
    ensures
        final(package_info)@ == (ManifestV {
            metadata: final(package_info)@.metadata,
            features: old(package_info)@.features.push("auto_update"@),
            ..old(package_info)@
        }),
        (forall|j: int|
            0 <= j < old(package_info)@.metadata.len() ==> old(package_info)@.metadata[j].0
                != "update_url"@) ==> final(package_info)@.metadata
            == old(package_info)@.metadata.push(("update_url"@, update_url@)),
        forall|i: int|
            is_first_key(old(package_info)@.metadata, "update_url"@, i)
                ==> final(package_info)@.metadata == old(package_info)@.metadata.update(
                i,
                ("update_url"@, update_url@),
            ),
{
    metadata_set(package_info, String::from_str("update_url"), String::from_str(update_url));
    package_info.features.push(String::from_str("auto_update"));
    assert(final(package_info)@.features =~= old(package_info)@.features.push("auto_update"@));
}

/// The update endpoint recorded in the manifest, if any.
pub fn update_url_of<'a>(m: &'a Manifest) -> (r: Option<&'a String>)
    ensures
        match r {
            Option::Some(v) => exists|i: int|
                is_first_key(m@.metadata, "update_url"@, i) && v@ == m@.metadata[i].1,
            Option::None => forall|j: int|
                0 <= j < m@.metadata.len() ==> m@.metadata[j].0 != "update_url"@,
        },
{
    metadata_get(m, "update_url")
}

} // verus!
