//! The package assembler: build outputs, assets and a license become the
//! canonical payload tree, with the manifest serialized last so the tree
//! is self-consistent before archival.  A declared asset that cannot be
//! found fails the whole assembly before any artifact exists.

use vstd::prelude::*;
use vstd::utf8::encode_utf8;
use vstd::string::StrSliceExecFns;
use vstd::string::StringSliceAdditionalSpecFns;
use crate::manifest::{Manifest, ManifestV, TargetEntry, TargetEntryV, targets_view};
use crate::manifest_text::{jmanifest, manifest_to_bytes};
use crate::payload::{tree_view, valid_tree, validate_tree, EntryV, PayloadEntry};
use crate::platform::{
    exe_suffix,
    exe_suffix_spec,
    target_label,
    target_label_spec,
    Arch,
    Platform,
};

verus! {

/// What the external build collaborator yielded for one target.
pub struct TargetBuild {
    pub platform: Platform,
    pub arch: Arch,
    pub binary: Vec<u8>,
    pub features: Vec<String>,
    pub optimizations: Option<String>,
    pub compatibility: Vec<String>,
}

/// The mathematical value of one build output.
pub struct TargetBuildV {
    pub platform: Platform,
    pub arch: Arch,
    pub binary: Seq<u8>,
    pub features: Seq<Seq<char>>,
    pub optimizations: Option<Seq<char>>,
    pub compatibility: Seq<Seq<char>>,
}

impl View for TargetBuild {
    type V = TargetBuildV;

    open spec fn view(&self) -> TargetBuildV {
        TargetBuildV {
            platform: self.platform,
            arch: self.arch,
            binary: self.binary@,
            features: self.features.deep_view(),
            optimizations: match self.optimizations {
                Option::Some(s) => Option::Some(s@),
                Option::None => Option::None,
            },
            compatibility: self.compatibility.deep_view(),
        }
    }
}

pub open spec fn builds_view(s: Seq<TargetBuild>) -> Seq<TargetBuildV> {
    s.map_values(|b: TargetBuild| b@)
}

/// What the assembler found at a declared asset path.
pub enum AssetSource {
    /// Nothing exists at the declared path.
    Missing,
    /// A single file; its base name, and its contents.
    File { name: String, data: Vec<u8> },
    /// A directory; its subtree, with paths relative to it.
    Dir { entries: Vec<PayloadEntry> },
}

pub enum AssetSourceV {
    Missing,
    File(Seq<char>, Seq<u8>),
    Dir(Seq<EntryV>),
}

/// A declared asset path and what was found there.
pub struct AssetInput {
    pub declared: String,
    pub source: AssetSource,
}

pub type AssetV = (Seq<char>, AssetSourceV);

impl View for AssetInput {
    type V = AssetV;

    open spec fn view(&self) -> AssetV {
        (
            self.declared@,
            match &self.source {
                AssetSource::Missing => AssetSourceV::Missing,
                AssetSource::File { name, data } => AssetSourceV::File(name@, data@),
                AssetSource::Dir { entries } => AssetSourceV::Dir(tree_view(entries@)),
            },
        )
    }
}

pub open spec fn assets_view(s: Seq<AssetInput>) -> Seq<AssetV> {
    s.map_values(|a: AssetInput| a@)
}

/// The manifest's relative path for a target's binary.
pub open spec fn bin_rel_path_spec(p: Platform, a: Arch, name: Seq<char>) -> Seq<char> {
    "bin/"@ + target_label_spec(p, a) + "/"@ + name + exe_suffix_spec(p)
}

/// The manifest entry recorded for one build output.
pub open spec fn entry_of_build(b: TargetBuildV, name: Seq<char>) -> TargetEntryV {
    TargetEntryV {
        platform: b.platform,
        arch: b.arch,
        binary_path: bin_rel_path_spec(b.platform, b.arch, name),
        features: b.features,
        optimizations: b.optimizations,
        compatibility: b.compatibility,
    }
}

pub open spec fn entries_of_builds(bs: Seq<TargetBuildV>, name: Seq<char>) -> Seq<TargetEntryV> {
    bs.map_values(|b: TargetBuildV| entry_of_build(b, name))
}

/// The two payload entries one build output contributes: the target's
/// directory and the executable itself.
pub open spec fn build_tree_entries(b: TargetBuildV, name: Seq<char>) -> Seq<EntryV> {
    seq![
        (("rustpack/bin/"@ + target_label_spec(b.platform, b.arch)), Option::None),
        (
            ("rustpack/"@ + bin_rel_path_spec(b.platform, b.arch, name)),
            Option::Some((b.binary, true)),
        ),
    ]
}

pub open spec fn builds_tree_entries(bs: Seq<TargetBuildV>, name: Seq<char>) -> Seq<EntryV>
    decreases bs.len(),
{
    if bs.len() == 0 {
        Seq::empty()
    } else {
        build_tree_entries(bs[0], name) + builds_tree_entries(bs.drop_first(), name)
    }
}

pub proof fn lemma_builds_tree_snoc(bs: Seq<TargetBuildV>, b: TargetBuildV, name: Seq<char>)
    ensures
        builds_tree_entries(bs.push(b), name) == builds_tree_entries(bs, name)
            + build_tree_entries(b, name),
    decreases bs.len(),
{
    if bs.len() == 0 {
        assert(bs.push(b)[0] == b);
        assert(bs.push(b).drop_first() =~= Seq::<TargetBuildV>::empty());
        assert(builds_tree_entries(Seq::<TargetBuildV>::empty(), name) =~= Seq::<EntryV>::empty());
        assert(builds_tree_entries(bs.push(b), name) =~= builds_tree_entries(bs, name)
            + build_tree_entries(b, name));
    } else {
        assert(bs.push(b)[0] == bs[0]);
        assert(bs.push(b).drop_first() =~= bs.drop_first().push(b));
        lemma_builds_tree_snoc(bs.drop_first(), b, name);
        assert(builds_tree_entries(bs.push(b), name) =~= builds_tree_entries(bs, name)
            + build_tree_entries(b, name));
    }
}

/// The payload entries one found asset contributes.
pub open spec fn asset_tree_entries(a: AssetV) -> Seq<EntryV> {
    match a.1 {
        AssetSourceV::Missing => Seq::empty(),
        AssetSourceV::File(nm, d) => seq![
            (("rustpack/assets/"@ + nm), Option::Some((d, false))),
        ],
        AssetSourceV::Dir(es) => seq![(("rustpack/assets/"@ + a.0), Option::None)]
            + es.map_values(|e: EntryV| (("rustpack/assets/"@ + a.0 + "/"@ + e.0), e.1)),
    }
}

pub open spec fn assets_tree_entries(s: Seq<AssetV>) -> Seq<EntryV>
    decreases s.len(),
{
    if s.len() == 0 {
        Seq::empty()
    } else {
        asset_tree_entries(s[0]) + assets_tree_entries(s.drop_first())
    }
}

pub proof fn lemma_assets_tree_snoc(s: Seq<AssetV>, a: AssetV)
    ensures
        assets_tree_entries(s.push(a)) == assets_tree_entries(s) + asset_tree_entries(a),
    decreases s.len(),
{
    if s.len() == 0 {
        assert(s.push(a)[0] == a);
        assert(s.push(a).drop_first() =~= Seq::<AssetV>::empty());
        assert(assets_tree_entries(Seq::<AssetV>::empty()) =~= Seq::<EntryV>::empty());
        assert(assets_tree_entries(s.push(a)) =~= assets_tree_entries(s) + asset_tree_entries(a));
    } else {
        assert(s.push(a)[0] == s[0]);
        assert(s.push(a).drop_first() =~= s.drop_first().push(a));
        lemma_assets_tree_snoc(s.drop_first(), a);
        assert(assets_tree_entries(s.push(a)) =~= assets_tree_entries(s) + asset_tree_entries(a));
    }
}

/// First value stored under a file name, if any.
pub open spec fn assoc_file(files: Seq<(Seq<char>, Seq<u8>)>, name: Seq<char>) -> Option<Seq<u8>>
    decreases files.len(),
{
    if files.len() == 0 {
        Option::None
    } else if files[0].0 == name {
        Option::Some(files[0].1)
    } else {
        assoc_file(files.drop_first(), name)
    }
}

fn file_lookup_from(files: &Vec<(String, Vec<u8>)>, name: &str, i: usize) -> (r: Option<Vec<u8>>)
    requires
        i <= files@.len(),
    ensures
        ({
            let fv = files.deep_view().skip(i as int);
            match r {
                Option::Some(d) => assoc_file(fv, name@) == Option::Some(d@),
                Option::None => assoc_file(fv, name@) is None,
            }
        }),
    decreases files@.len() - i,
{
    let ghost fv = files.deep_view().skip(i as int);
    if i == files.len() {
        assert(fv.len() == 0);
        return Option::None;
    }
    assert(fv[0] == (files@[i as int].0@, files@[i as int].1@));
    if crate::chartext::str_eq(files[i].0.as_str(), name) {
        let d = vstd::slice::slice_to_vec(files[i].1.as_slice());
        assert(assoc_file(fv, name@) == Option::Some(d@));
        return Option::Some(d);
    }
    let r = file_lookup_from(files, name, i + 1);
    proof {
        assert(fv.drop_first() =~= files.deep_view().skip(i + 1));
    }
    r
}

/// First content stored under a file name, by the stored order.
pub fn file_lookup(files: &Vec<(String, Vec<u8>)>, name: &str) -> (r: Option<Vec<u8>>)
    ensures
        match r {
            Option::Some(d) => assoc_file(files.deep_view(), name@) == Option::Some(d@),
            Option::None => assoc_file(files.deep_view(), name@) is None,
        },
{
    let r = file_lookup_from(files, name, 0);
    proof {
        assert(files.deep_view().skip(0) =~= files.deep_view());
    }
    r
}

/// The note written when no license file is found.
pub open spec fn license_note_text() -> Seq<char> {
    "No license file detected in the original project."@
}

/// The license entry of the payload: the first of the candidate file
/// names that exists, copied verbatim as LICENSE; otherwise a placeholder
/// note.
pub open spec fn license_entry_spec(files: Seq<(Seq<char>, Seq<u8>)>) -> EntryV {
    if assoc_file(files, "LICENSE"@) is Some {
        ("rustpack/LICENSE"@, Option::Some((assoc_file(files, "LICENSE"@)->0, false)))
    } else if assoc_file(files, "LICENSE.txt"@) is Some {
        ("rustpack/LICENSE"@, Option::Some((assoc_file(files, "LICENSE.txt"@)->0, false)))
    } else if assoc_file(files, "LICENSE.md"@) is Some {
        ("rustpack/LICENSE"@, Option::Some((assoc_file(files, "LICENSE.md"@)->0, false)))
    } else if assoc_file(files, "LICENCE"@) is Some {
        ("rustpack/LICENSE"@, Option::Some((assoc_file(files, "LICENCE"@)->0, false)))
    } else if assoc_file(files, "LICENCE.txt"@) is Some {
        ("rustpack/LICENSE"@, Option::Some((assoc_file(files, "LICENCE.txt"@)->0, false)))
    } else if assoc_file(files, "LICENCE.md"@) is Some {
        ("rustpack/LICENSE"@, Option::Some((assoc_file(files, "LICENCE.md"@)->0, false)))
    } else {
        ("rustpack/LICENSE.note"@, Option::Some((encode_utf8(license_note_text()), false)))
    }
}

/// Pick the payload's license entry from the project root's files, trying
/// the fixed candidate names in order, case-exactly.
pub fn detect_license(files: &Vec<(String, Vec<u8>)>) -> (r: PayloadEntry)
    ensures
        r@ == license_entry_spec(files.deep_view()),
{
    match file_lookup(files, "LICENSE") {
        Option::Some(d) => {
            return PayloadEntry::File {
                path: String::from_str("rustpack/LICENSE"),
                data: d,
                executable: false,
            };
        },
        Option::None => {},
    }
    match file_lookup(files, "LICENSE.txt") {
        Option::Some(d) => {
            return PayloadEntry::File {
                path: String::from_str("rustpack/LICENSE"),
                data: d,
                executable: false,
            };
        },
        Option::None => {},
    }
    match file_lookup(files, "LICENSE.md") {
        Option::Some(d) => {
            return PayloadEntry::File {
                path: String::from_str("rustpack/LICENSE"),
                data: d,
                executable: false,
            };
        },
        Option::None => {},
    }
    match file_lookup(files, "LICENCE") {
        Option::Some(d) => {
            return PayloadEntry::File {
                path: String::from_str("rustpack/LICENSE"),
                data: d,
                executable: false,
            };
        },
        Option::None => {},
    }
    match file_lookup(files, "LICENCE.txt") {
        Option::Some(d) => {
            return PayloadEntry::File {
                path: String::from_str("rustpack/LICENSE"),
                data: d,
                executable: false,
            };
        },
        Option::None => {},
    }
    match file_lookup(files, "LICENCE.md") {
        Option::Some(d) => {
            return PayloadEntry::File {
                path: String::from_str("rustpack/LICENSE"),
                data: d,
                executable: false,
            };
        },
        Option::None => {},
    }
    let note: &str = "No license file detected in the original project.";
    let data = note.as_bytes_vec();
    PayloadEntry::File { path: String::from_str("rustpack/LICENSE.note"), data, executable: false }
}

} // verus!

verus! {

/// The feature tags every package advertises.
pub open spec fn advertised_features() -> Seq<Seq<char>> {
    seq![
        "cross_platform"@,
        "self_extracting"@,
        "binary_packaging"@,
        "compression"@,
        "auto_detection"@,
    ]
}

/// The manifest recorded for a packaging run.
pub open spec fn manifest_spec(
    name: Seq<char>,
    version: Seq<char>,
    description: Option<Seq<char>>,
    builds: Seq<TargetBuildV>,
    created_at: Seq<char>,
    install_token: Seq<char>,
    extra_metadata: Seq<(Seq<char>, Seq<char>)>,
) -> ManifestV {
    ManifestV {
        name,
        version,
        description,
        targets: entries_of_builds(builds, name),
        created_at,
        install_token,
        features: advertised_features(),
        metadata: seq![("created_with"@, "rustpack"@)] + extra_metadata,
    }
}

/// The canonical payload layout: the root and bin directories, one
/// directory and binary per target, the assets subtree when any asset is
/// declared, the license entry, and the serialized manifest last.
pub open spec fn layout_spec(
    name: Seq<char>,
    builds: Seq<TargetBuildV>,
    assets: Seq<AssetV>,
    files: Seq<(Seq<char>, Seq<u8>)>,
    manifest_bytes: Seq<u8>,
) -> Seq<EntryV> {
    seq![("rustpack"@, Option::<(Seq<u8>, bool)>::None), ("rustpack/bin"@, Option::None)]
        + builds_tree_entries(builds, name) + (if assets.len() > 0 {
        seq![(("rustpack/assets"@), Option::<(Seq<u8>, bool)>::None)] + assets_tree_entries(assets)
    } else {
        Seq::empty()
    }) + seq![license_entry_spec(files)] + seq![
        ("rustpack/info.json"@, Option::Some((manifest_bytes, false))),
    ]
}

/// The first declared asset that is missing, if any.
pub open spec fn asset_missing_at(assets: Seq<AssetV>, i: int) -> bool {
    &&& 0 <= i < assets.len()
    &&& assets[i].1 is Missing
    &&& forall|j: int| 0 <= j < i ==> !((#[trigger] assets[j]).1 is Missing)
}

pub open spec fn no_asset_missing(assets: Seq<AssetV>) -> bool {
    forall|i: int| 0 <= i < assets.len() ==> !((#[trigger] assets[i]).1 is Missing)
}

#[derive(Debug)]
pub enum AssembleError {
    /// A declared asset path does not exist; assembly fails before any
    /// archive is written.
    AssetNotFound(String),
    /// The inputs would produce a payload tree with unclean or colliding
    /// paths, or contents no encoding can hold.
    ConfigError(String),
}

fn join2(a: &str, b: &str) -> (r: String)
    ensures
        r@ == a@ + b@,
{
    let mut s = String::from_str(a);
    s.append(b);
    s
}

fn clone_bytes_vec(v: &Vec<u8>) -> (r: Vec<u8>)
    ensures
        r@ == v@,
{
    vstd::slice::slice_to_vec(v.as_slice())
}

fn clone_strings(v: &Vec<String>) -> (r: Vec<String>)
    ensures
        r.deep_view() == v.deep_view(),
{
    let n = v.len();
    let mut out: Vec<String> = Vec::new();
    let mut i: usize = 0;
    while i < n
        invariant
            n == v@.len(),
            0 <= i <= n,
            out.deep_view() =~= v.deep_view().take(i as int),
        decreases n - i,
    {
        let c = v[i].clone();
        assert(c@ == v@[i as int]@);
        let ghost pre = out.deep_view();
        out.push(c);
        proof {
            assert(out.deep_view() =~= pre.push(c@));
            assert(v.deep_view()[i as int] == v@[i as int]@);
            assert(v.deep_view().take(i + 1) =~= v.deep_view().take(i as int).push(
                v.deep_view()[i as int],
            ));
        }
        i = i + 1;
    }
    assert(out.deep_view() =~= v.deep_view());
    out
}

fn clone_pairs(v: &Vec<(String, String)>) -> (r: Vec<(String, String)>)
    ensures
        r.deep_view() == v.deep_view(),
{
    let n = v.len();
    let mut out: Vec<(String, String)> = Vec::new();
    let mut i: usize = 0;
    while i < n
        invariant
            n == v@.len(),
            0 <= i <= n,
            out.deep_view() =~= v.deep_view().take(i as int),
        decreases n - i,
    {
        let c = (v[i].0.clone(), v[i].1.clone());
        assert(c.0@ == v@[i as int].0@ && c.1@ == v@[i as int].1@);
        let ghost cv = (c.0@, c.1@);
        let ghost pre = out.deep_view();
        out.push(c);
        proof {
            assert(out.deep_view() =~= pre.push(cv));
            assert(v.deep_view()[i as int] == cv);
            assert(v.deep_view().take(i + 1) =~= v.deep_view().take(i as int).push(
                v.deep_view()[i as int],
            ));
        }
        i = i + 1;
    }
    assert(out.deep_view() =~= v.deep_view());
    out
}

/// Assemble the payload tree and manifest for a package.  Build outputs
/// are laid out under per-target directories, assets are copied (a
/// directory keeps its structure, a single file is flattened), the
/// license entry is chosen from the project root, and the manifest is
/// serialized into the tree last.  A missing asset fails the assembly;
/// a layout whose paths are not clean and unique is refused.
#[verifier::rlimit(100)]
#[verifier::spinoff_prover]
pub fn assemble_tree(
    name: &str,
    version: &str,
    description: &Option<String>,
    builds: &Vec<TargetBuild>,
    assets: &Vec<AssetInput>,
    root_files: &Vec<(String, Vec<u8>)>,
    extra_metadata: &Vec<(String, String)>,
    created_at: &str,
    install_token: &str,
) -> (r: Result<(Vec<PayloadEntry>, Manifest), AssembleError>)
    ensures
        ({
            let mspec = manifest_spec(
                name@,
                version@,
                crate::manifest_text::opt_chars(*description),
                builds_view(builds@),
                created_at@,
                install_token@,
                extra_metadata.deep_view(),
            );
            let lspec = layout_spec(
                name@,
                builds_view(builds@),
                assets_view(assets@),
                root_files.deep_view(),
                jmanifest(mspec),
            );
            &&& (r matches Result::Ok(t) ==> tree_view(t.0@) == lspec && t.1@ == mspec
                && valid_tree(lspec) && no_asset_missing(assets_view(assets@)))
            &&& (r matches Result::Err(e) ==> (e matches AssembleError::AssetNotFound(p) ==> exists|
                i: int,
            |
                asset_missing_at(assets_view(assets@), i) && p@ == assets_view(assets@)[i].0))
            &&& (r matches Result::Err(e) ==> (e matches AssembleError::ConfigError(_)
                ==> no_asset_missing(assets_view(assets@)) && !valid_tree(lspec)))
            &&& (no_asset_missing(assets_view(assets@)) && valid_tree(lspec) ==> r is Ok)
        }),
{
    let ghost bv = builds_view(builds@);
    let ghost av = assets_view(assets@);
    let mut tree: Vec<PayloadEntry> = Vec::new();
    tree.push(PayloadEntry::Dir { path: String::from_str("rustpack") });
    tree.push(PayloadEntry::Dir { path: String::from_str("rustpack/bin") });
    let ghost base = seq![
        ("rustpack"@, Option::<(Seq<u8>, bool)>::None),
        ("rustpack/bin"@, Option::None),
    ];
    assert(tree_view(tree@) =~= base);
    let mut targets: Vec<TargetEntry> = Vec::new();
    let nb = builds.len();
    let mut k: usize = 0;
    proof {
        assert(builds_tree_entries(bv.take(0), name@) =~= Seq::<EntryV>::empty());
        assert(tree_view(tree@) =~= base + builds_tree_entries(bv.take(0), name@));
        assert(targets_view(targets@) =~= entries_of_builds(bv.take(0), name@));
    }
    while k < nb
        invariant
            nb == builds@.len(),
            bv == builds_view(builds@),
            bv.len() == nb,
            0 <= k <= nb,
            tree_view(tree@) == base + builds_tree_entries(bv.take(k as int), name@),
            targets_view(targets@) == entries_of_builds(bv.take(k as int), name@),
        decreases nb - k,
    {
        let b = &builds[k];
        assert(bv[k as int] == b@);
        let label = target_label(b.platform, b.arch);
        let dirp = join2("rustpack/bin/", label.as_str());
        let mut rel = String::from_str("bin/");
        rel.append(label.as_str());
        rel.append("/");
        rel.append(name);
        rel.append(exe_suffix(b.platform));
        assert(rel@ == bin_rel_path_spec(b.platform, b.arch, name@));
        let full = join2("rustpack/", rel.as_str());
        let ghost pre_tree = tree_view(tree@);
        tree.push(PayloadEntry::Dir { path: dirp });
        tree.push(
            PayloadEntry::File { path: full, data: clone_bytes_vec(&b.binary), executable: true },
        );
        let ghost pre_targets = targets_view(targets@);
        targets.push(
            TargetEntry {
                platform: b.platform,
                arch: b.arch,
                binary_path: rel,
                features: clone_strings(&b.features),
                optimizations: match &b.optimizations {
                    Option::Some(s) => Option::Some(s.clone()),
                    Option::None => Option::None,
                },
                compatibility: clone_strings(&b.compatibility),
            },
        );
        proof {
            assert(tree_view(tree@) =~= pre_tree + build_tree_entries(bv[k as int], name@));
            assert(bv.take(k + 1) =~= bv.take(k as int).push(bv[k as int]));
            lemma_builds_tree_snoc(bv.take(k as int), bv[k as int], name@);
            assert(targets_view(targets@) =~= pre_targets.push(entry_of_build(
                bv[k as int],
                name@,
            )));
            assert(entries_of_builds(bv.take(k + 1), name@) =~= entries_of_builds(
                bv.take(k as int),
                name@,
            ).push(entry_of_build(bv[k as int], name@)));
        }
        k = k + 1;
    }
    proof {
        assert(bv.take(nb as int) =~= bv);
    }
    let ghost after_bins = base + builds_tree_entries(bv, name@);
    let na = assets.len();
    if na > 0 {
        tree.push(PayloadEntry::Dir { path: String::from_str("rustpack/assets") });
        proof {
            assert(tree_view(tree@) =~= after_bins + seq![
                (("rustpack/assets"@), Option::<(Seq<u8>, bool)>::None),
            ]);
        }
    }
    let ghost assets_base = tree_view(tree@);
    let mut k2: usize = 0;
    proof {
        assert(assets_tree_entries(av.take(0)) =~= Seq::<EntryV>::empty());
        assert(tree_view(tree@) =~= assets_base + assets_tree_entries(av.take(0)));
    }
    while k2 < na
        invariant
            na == assets@.len(),
            av == assets_view(assets@),
            av.len() == na,
            0 <= k2 <= na,
            tree_view(tree@) == assets_base + assets_tree_entries(av.take(k2 as int)),
            forall|j: int| 0 <= j < k2 ==> !((#[trigger] av[j]).1 is Missing),
        decreases na - k2,
    {
        let a = &assets[k2];
        assert(av[k2 as int] == a@);
        let ghost pre_tree = tree_view(tree@);
        match &a.source {
            AssetSource::Missing => {
                proof {
                    assert(asset_missing_at(av, k2 as int));
                }
                return Result::Err(AssembleError::AssetNotFound(a.declared.clone()));
            },
            AssetSource::File { name: fname, data } => {
                let p = join2("rustpack/assets/", fname.as_str());
                tree.push(
                    PayloadEntry::File {
                        path: p,
                        data: clone_bytes_vec(data),
                        executable: false,
                    },
                );
                proof {
                    assert(tree_view(tree@) =~= pre_tree + asset_tree_entries(av[k2 as int]));
                }
            },
            AssetSource::Dir { entries } => {
                let dp = join2("rustpack/assets/", a.declared.as_str());
                tree.push(PayloadEntry::Dir { path: dp });
                let ghost es = match av[k2 as int].1 {
                    AssetSourceV::Dir(es) => es,
                    _ => Seq::empty(),
                };
                let ghost mapped = es.map_values(
                    |e: EntryV| (("rustpack/assets/"@ + av[k2 as int].0 + "/"@ + e.0), e.1),
                );
                let ghost dir_base = tree_view(tree@);
                assert(dir_base =~= pre_tree + seq![
                    (("rustpack/assets/"@ + av[k2 as int].0), Option::<(Seq<u8>, bool)>::None),
                ]);
                let ne = entries.len();
                let mut j: usize = 0;
                proof {
                    assert(tree_view(tree@) =~= dir_base + mapped.take(0));
                }
                while j < ne
                    invariant
                        ne == entries@.len(),
                        es == tree_view(entries@),
                        mapped == es.map_values(
                            |e: EntryV| (("rustpack/assets/"@ + av[k2 as int].0 + "/"@ + e.0), e.1),
                        ),
                        av == assets_view(assets@),
                        0 <= k2 < av.len(),
                        0 <= j <= ne,
                        es.len() == ne,
                        tree_view(tree@) == dir_base + mapped.take(j as int),
                        assets@[k2 as int].source matches AssetSource::Dir { entries: aes }
                            && aes@ == entries@,
                        av[k2 as int].0 == a.declared@,
                    decreases ne - j,
                {
                    assert(es[j as int] == entries@[j as int]@);
                    let mut q = String::from_str("rustpack/assets/");
                    q.append(a.declared.as_str());
                    q.append("/");
                    let ghost pre2 = tree_view(tree@);
                    let sub = match &entries[j] {
                        PayloadEntry::Dir { path } => {
                            assert(es[j as int] == (path@, Option::<(Seq<u8>, bool)>::None));
                            q.append(path.as_str());
                            PayloadEntry::Dir { path: q }
                        },
                        PayloadEntry::File { path, data, executable } => {
                            assert(es[j as int] == (path@, Option::Some((data@, *executable))));
                            q.append(path.as_str());
                            PayloadEntry::File {
                                path: q,
                                data: clone_bytes_vec(data),
                                executable: *executable,
                            }
                        },
                    };
                    proof {
                        assert(mapped[j as int] == (("rustpack/assets/"@ + av[k2 as int].0 + "/"@
                            + es[j as int].0), es[j as int].1));
                        assert(av[k2 as int].0 == a.declared@);
                    }
                    assert(sub@ == mapped[j as int]);
                    tree.push(sub);
                    proof {
                        assert(tree_view(tree@) =~= pre2.push(mapped[j as int]));
                        assert(mapped.take(j + 1) =~= mapped.take(j as int).push(mapped[j as int]));
                    }
                    j = j + 1;
                }
                proof {
                    assert(mapped.take(ne as int) =~= mapped);
                    assert(tree_view(tree@) =~= pre_tree + asset_tree_entries(av[k2 as int]));
                }
            },
        }
        proof {
            assert(av.take(k2 + 1) =~= av.take(k2 as int).push(av[k2 as int]));
            lemma_assets_tree_snoc(av.take(k2 as int), av[k2 as int]);
        }
        k2 = k2 + 1;
    }
    proof {
        assert(av.take(na as int) =~= av);
    }
    let ghost after_assets = tree_view(tree@);
    let lic = detect_license(root_files);
    tree.push(lic);
    let mut feat: Vec<String> = Vec::new();
    feat.push(String::from_str("cross_platform"));
    feat.push(String::from_str("self_extracting"));
    feat.push(String::from_str("binary_packaging"));
    feat.push(String::from_str("compression"));
    feat.push(String::from_str("auto_detection"));
    assert(feat.deep_view() =~= advertised_features());
    let mut md: Vec<(String, String)> = Vec::new();
    md.push((String::from_str("created_with"), String::from_str("rustpack")));
    let mut extra = clone_pairs(extra_metadata);
    md.append(&mut extra);
    assert(md.deep_view() =~= seq![("created_with"@, "rustpack"@)] + extra_metadata.deep_view());
    let m = Manifest {
        name: String::from_str(name),
        version: String::from_str(version),
        description: match description {
            Option::Some(s) => Option::Some(s.clone()),
            Option::None => Option::None,
        },
        targets,
        created_at: String::from_str(created_at),
        install_token: String::from_str(install_token),
        features: feat,
        metadata: md,
    };
    let ghost mspec = manifest_spec(
        name@,
        version@,
        crate::manifest_text::opt_chars(*description),
        bv,
        created_at@,
        install_token@,
        extra_metadata.deep_view(),
    );
    assert(m@ == mspec);
    let mb = manifest_to_bytes(&m);
    tree.push(PayloadEntry::File {
        path: String::from_str("rustpack/info.json"),
        data: mb,
        executable: false,
    });
    let ghost lspec = layout_spec(
        name@,
        bv,
        av,
        root_files.deep_view(),
        jmanifest(mspec),
    );
    proof {
        let ghost assetpart: Seq<EntryV> = if na > 0 {
            seq![(("rustpack/assets"@), Option::<(Seq<u8>, bool)>::None)] + assets_tree_entries(av)
        } else {
            Seq::empty()
        };
        assert(after_assets =~= base + builds_tree_entries(bv, name@) + assetpart);
        assert(lic@ == license_entry_spec(root_files.deep_view()));
        assert(mb@ == jmanifest(mspec));
        assert(tree_view(tree@) =~= after_assets + seq![license_entry_spec(
            root_files.deep_view(),
        )] + seq![("rustpack/info.json"@, Option::Some((jmanifest(mspec), false)))]);
        assert(tree_view(tree@) =~= lspec);
    }
    if !validate_tree(&tree) {
        return Result::Err(
            AssembleError::ConfigError(
                String::from_str("payload paths must be clean and unique"),
            ),
        );
    }
    Result::Ok((tree, m))
}

} // verus!

verus! {

/// Assemble a package with a fresh creation timestamp and a fresh random
/// installation token.  The timestamp and token depend on the clock and
/// the random source; everything else is pinned by `assemble_tree`.
pub fn assemble_package(
    name: &str,
    version: &str,
    description: &Option<String>,
    builds: &Vec<TargetBuild>,
    assets: &Vec<AssetInput>,
    root_files: &Vec<(String, Vec<u8>)>,
    extra_metadata: &Vec<(String, String)>,
) -> (r: Result<(Vec<PayloadEntry>, Manifest), AssembleError>)
    ensures
        r matches Result::Ok(t) ==> exists|created: Seq<char>, token: Seq<char>|
            {
                let mspec = manifest_spec(
                    name@,
                    version@,
                    crate::manifest_text::opt_chars(*description),
                    builds_view(builds@),
                    created,
                    token,
                    extra_metadata.deep_view(),
                );
                &&& token.len() == 16
                &&& (forall|i: int|
                    0 <= i < token.len() ==> crate::stamp::is_alphanumeric_char(
                        #[trigger] token[i],
                    ))
                &&& t.1@ == #[trigger] manifest_spec(
                    name@,
                    version@,
                    crate::manifest_text::opt_chars(*description),
                    builds_view(builds@),
                    created,
                    token,
                    extra_metadata.deep_view(),
                )
                &&& tree_view(t.0@) == layout_spec(
                    name@,
                    builds_view(builds@),
                    assets_view(assets@),
                    root_files.deep_view(),
                    jmanifest(mspec),
                )
                &&& valid_tree(tree_view(t.0@))
            },
        r matches Result::Err(e) ==> (e matches AssembleError::AssetNotFound(p) ==> exists|i: int|
            asset_missing_at(assets_view(assets@), i) && p@ == assets_view(assets@)[i].0),
        r matches Result::Err(e) ==> (e matches AssembleError::ConfigError(_)
            ==> no_asset_missing(assets_view(assets@))),
        (no_asset_missing(assets_view(assets@)) && (forall|created: Seq<char>, token: Seq<char>|
            1 <= created.len() <= 64 && token.len() == 16 ==> valid_tree(
                layout_spec(
                    name@,
                    builds_view(builds@),
                    assets_view(assets@),
                    root_files.deep_view(),
                    jmanifest(
                        #[trigger] manifest_spec(
                            name@,
                            version@,
                            crate::manifest_text::opt_chars(*description),
                            builds_view(builds@),
                            created,
                            token,
                            extra_metadata.deep_view(),
                        ),
                    ),
                ),
            ))) ==> r is Ok,
{
    let created = crate::stamp::rfc3339_now();
    let token = crate::stamp::random_alphanumeric_token(16);
    let r = assemble_tree(
        name,
        version,
        description,
        builds,
        assets,
        root_files,
        extra_metadata,
        created.as_str(),
        token.as_str(),
    );
    proof {
        match r {
            Result::Ok(_) => {
                assert(token@.len() == 16);
            },
            Result::Err(ref e) => {
                match e {
                    AssembleError::AssetNotFound(_) => {
                        assert(!no_asset_missing(assets_view(assets@)));
                    },
                    AssembleError::ConfigError(_) => {
                        assert(1 <= created@.len() <= 64 && token@.len() == 16);
                    },
                }
            },
        }
    }
    r
}

} // verus!

verus! {

/// The build collaborator's invocation arguments for one target: the
/// build verb, the profile flag, the target selection, and the feature
/// list when any features are enabled.
pub open spec fn cargo_build_args_spec(
    profile: Seq<char>,
    target: Seq<char>,
    features: Seq<Seq<char>>,
) -> Seq<Seq<char>> {
    seq!["build"@, "--"@ + profile, "--target"@, target] + (if features.len() > 0 {
        seq!["--features"@, join_commas(features)]
    } else {
        Seq::empty()
    })
}

/// Text values joined with commas.
pub open spec fn join_commas(v: Seq<Seq<char>>) -> Seq<char>
    decreases v.len(),
{
    if v.len() == 0 {
        Seq::empty()
    } else if v.len() == 1 {
        v[0]
    } else {
        v[0] + ","@ + join_commas(v.drop_first())
    }
}

fn join_commas_exec(v: &Vec<String>) -> (r: String)
    ensures
        r@ == join_commas(v.deep_view()),
    decreases v@.len(),
{
    let ghost dv = v.deep_view();
    let n = v.len();
    if n == 0 {
        let s = String::new();
        assert(s@ =~= join_commas(dv));
        return s;
    }
    let mut s = v[0].clone();
    assert(s@ == dv[0]);
    let mut k: usize = 1;
    while k < n
        invariant
            n == v@.len(),
            dv == v.deep_view(),
            dv.len() == n,
            1 <= k <= n,
            s@ == join_front(dv, k as int),
        decreases n - k,
    {
        s.append(",");
        assert(dv[k as int] == v@[k as int]@);
        s.append(v[k].as_str());
        proof {
            reveal_strlit(",");
            assert(s@ =~= join_front(dv, k + 1));
        }
        k = k + 1;
    }
    proof {
        lemma_join_front(dv, n as int);
        assert(dv.take(n as int) =~= dv);
    }
    s
}

/// The first `k` values joined, built left to right.
spec fn join_front(v: Seq<Seq<char>>, k: int) -> Seq<char>
    decreases k,
{
    if k <= 0 {
        Seq::empty()
    } else if k == 1 {
        v[0]
    } else {
        join_front(v, k - 1) + ","@ + v[k - 1]
    }
}

proof fn lemma_join_front(v: Seq<Seq<char>>, k: int)
    requires
        1 <= k <= v.len(),
    ensures
        join_front(v, k) == join_commas(v.take(k)),
    decreases k,
{
    if k == 1 {
        assert(v.take(1).len() == 1);
        assert(v.take(1)[0] == v[0]);
        if k == v.len() {
            assert(v.take(k) =~= v);
        }
        assert(join_commas(v.take(1)) == v.take(1)[0]);
    } else {
        lemma_join_front(v, k - 1);
        lemma_join_take_snoc(v.take(k - 1), v[k - 1]);
        assert(v.take(k) =~= v.take(k - 1).push(v[k - 1]));
    }
}

proof fn lemma_join_take_snoc(v: Seq<Seq<char>>, a: Seq<char>)
    requires
        v.len() >= 1,
    ensures
        join_commas(v.push(a)) == join_commas(v) + ","@ + a,
    decreases v.len(),
{
    if v.len() == 1 {
        assert(v.push(a)[0] == v[0]);
        assert(v.push(a).drop_first() =~= seq![a]);
        assert(join_commas(seq![a]) == a);
        assert(join_commas(v.push(a)) =~= join_commas(v) + ","@ + a);
    } else {
        assert(v.push(a)[0] == v[0]);
        assert(v.push(a).drop_first() =~= v.drop_first().push(a));
        lemma_join_take_snoc(v.drop_first(), a);
        assert(join_commas(v.push(a)) =~= join_commas(v) + ","@ + a);
    }
}

/// Build the invocation arguments handed to the external build step.
pub fn cargo_build_args(profile: &str, target: &str, features: &Vec<String>) -> (r: Vec<String>)
    ensures
        r.deep_view() == cargo_build_args_spec(profile@, target@, features.deep_view()),
{
    let mut out: Vec<String> = Vec::new();
    out.push(String::from_str("build"));
    out.push(join2("--", profile));
    out.push(String::from_str("--target"));
    out.push(String::from_str(target));
    if features.len() > 0 {
        out.push(String::from_str("--features"));
        out.push(join_commas_exec(features));
    }
    assert(out.deep_view() =~= cargo_build_args_spec(profile@, target@, features.deep_view()));
    out
}

} // verus!

verus! {

/// Assemble a package and encode it in one step.  Assembly pins the tree
/// and manifest; because an accepted tree is valid, the chosen archive
/// encoding is proved to succeed, and the artifact bytes are exactly the
/// encoding of the assembled tree.
pub fn build_package_bytes(
    name: &str,
    version: &str,
    description: &Option<String>,
    builds: &Vec<TargetBuild>,
    assets: &Vec<AssetInput>,
    root_files: &Vec<(String, Vec<u8>)>,
    extra_metadata: &Vec<(String, String)>,
    created_at: &str,
    install_token: &str,
    as_zip: bool,
) -> (r: Result<(Vec<u8>, Manifest), AssembleError>)
    ensures
        ({
            let mspec = manifest_spec(
                name@,
                version@,
                crate::manifest_text::opt_chars(*description),
                builds_view(builds@),
                created_at@,
                install_token@,
                extra_metadata.deep_view(),
            );
            let lspec = layout_spec(
                name@,
                builds_view(builds@),
                assets_view(assets@),
                root_files.deep_view(),
                jmanifest(mspec),
            );
            &&& (r matches Result::Ok(t) ==> t.1@ == mspec && no_asset_missing(
                assets_view(assets@),
            ) && t.0@ == (if as_zip {
                crate::archive::zip_archive_bytes(lspec)
            } else {
                crate::archive::self_extracting_bytes(lspec)
            }))
            &&& (no_asset_missing(assets_view(assets@)) && valid_tree(lspec) ==> r is Ok)
            &&& (r matches Result::Err(e) ==> (e matches AssembleError::AssetNotFound(p)
                ==> exists|i: int|
                asset_missing_at(assets_view(assets@), i) && p@ == assets_view(assets@)[i].0))
            &&& (r matches Result::Err(e) ==> (e matches AssembleError::ConfigError(_)
                ==> no_asset_missing(assets_view(assets@)) && !valid_tree(lspec)))
        }),
{
    let (tree, manifest) = match assemble_tree(
        name,
        version,
        description,
        builds,
        assets,
        root_files,
        extra_metadata,
        created_at,
        install_token,
    ) {
        Result::Ok(t) => t,
        Result::Err(e) => {
            return Result::Err(e);
        },
    };
    let encoded = if as_zip {
        crate::archive::encode_zip_archive(&tree)
    } else {
        crate::archive::encode_self_extracting(&tree)
    };
    match encoded {
        Result::Ok(bytes) => Result::Ok((bytes, manifest)),
        Result::Err(_) => {
            proof {
                assert(false);
            }
            vstd::pervasive::unreached()
        },
    }
}

} // verus!
