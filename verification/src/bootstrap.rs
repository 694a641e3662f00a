//! The bootstrap protocol: what a running self-extracting artifact
//! decides.  The marker line is located, the payload extracted, the host
//! resolved, and the matching binary launched with the cleanup flag
//! stripped from the forwarded arguments; the update subcommands are
//! recognized before the launch path.  All decisions are pure; the host
//! work around them stays outside the library.

use vstd::prelude::*;
use crate::archive::PAYLOAD_MARKER;
use crate::manifest::{entry_matches, is_first_match, Manifest, ManifestV};
use crate::manifest_text::jmanifest;
use crate::payload::{tree_view, EntryV, PayloadEntry};
use crate::platform::{Arch, Platform};
use vstd::string::StrSliceExecFns;
use vstd::string::StringSliceAdditionalSpecFns;
use vstd::utf8::encode_utf8;

verus! {

/// The marker line's bytes, without its newline.
pub open spec fn marker_bytes() -> Seq<u8> {
    encode_utf8(PAYLOAD_MARKER@)
}

/// A marker line begins at `i`: at a line start, the marker's bytes,
/// then a newline.
pub open spec fn marker_line_at(b: Seq<u8>, i: int) -> bool {
    &&& 0 <= i
    &&& i + marker_bytes().len() + 1 <= b.len()
    &&& (i == 0 || b[i - 1] == 10)
    &&& b.subrange(i, i + marker_bytes().len() as int) == marker_bytes()
    &&& b[i + marker_bytes().len() as int] == 10
}

/// The first marker line starts at `i`.
pub open spec fn first_marker_line(b: Seq<u8>, i: int) -> bool {
    marker_line_at(b, i) && forall|j: int| 0 <= j < i ==> !marker_line_at(b, j)
}

/// Locate the payload: everything after the first marker line.  Returns
/// the index of the first payload byte.
pub fn find_payload_start(artifact: &[u8]) -> (r: Option<usize>)
    ensures
        match r {
            Option::Some(p) => exists|i: int|
                first_marker_line(artifact@, i) && p == i + marker_bytes().len() + 1,
            Option::None => forall|i: int| !marker_line_at(artifact@, i),
        },
{
    let mk = PAYLOAD_MARKER.as_bytes_vec();
    let ml = mk.len();
    let n = artifact.len();
    if n <= ml {
        assert(forall|i: int| !marker_line_at(artifact@, i));
        return Option::None;
    }
    let last = n - ml - 1;
    let mut i: usize = 0;
    while i <= last
        invariant
            mk@ == marker_bytes(),
            ml == marker_bytes().len(),
            n == artifact@.len(),
            n >= ml + 1,
            last == n - ml - 1,
            0 <= i <= last + 1,
            forall|j: int| 0 <= j < i ==> !marker_line_at(artifact@, j),
        decreases last + 1 - i,
    {
        let line_start = i == 0 || artifact[i - 1] == 10;
        if line_start && artifact[i + ml] == 10 {
            let seg = vstd::slice::slice_subrange(artifact, i, i + ml);
            if crate::chartext::bytes_eq(seg, mk.as_slice()) {
                assert(marker_line_at(artifact@, i as int));
                assert(first_marker_line(artifact@, i as int));
                return Option::Some(i + ml + 1);
            }
        }
        assert(!marker_line_at(artifact@, i as int));
        i = i + 1;
    }
    assert forall|j: int| !marker_line_at(artifact@, j) by {
        if 0 <= j <= last {
        } else {
        }
    }
    Option::None
}

/// The auxiliary subcommands checked before the launch path, and the
/// launch path itself.
pub enum BootstrapCommand {
    /// Report whether a newer version is hosted; install nothing.
    CheckUpdates,
    /// Download the newest artifact and re-invoke it in self-replace mode.
    Update,
    /// Atomically move this artifact over the given path.
    ReplaceWith(String),
    /// Self-replace was requested without a target path.
    ReplaceMissingTarget,
    /// No subcommand: extract, resolve and launch.
    Launch,
}

/// Recognize a subcommand from the arguments, by the first argument
/// alone; anything else launches.
pub fn parse_bootstrap_command(args: &Vec<String>) -> (r: BootstrapCommand)
    ensures
        ({
            let av = args.deep_view();
            if av.len() == 0 {
                r is Launch
            } else if av[0] == "--check-updates"@ {
                r is CheckUpdates
            } else if av[0] == "--update"@ {
                r is Update
            } else if av[0] == "--replace-with-update"@ {
                if av.len() >= 2 {
                    r matches BootstrapCommand::ReplaceWith(p) && p@ == av[1]
                } else {
                    r is ReplaceMissingTarget
                }
            } else {
                r is Launch
            }
        }),
{
    if args.len() == 0 {
        return BootstrapCommand::Launch;
    }
    assert(args.deep_view()[0] == args@[0]@);
    if crate::chartext::str_eq(args[0].as_str(), "--check-updates") {
        BootstrapCommand::CheckUpdates
    } else if crate::chartext::str_eq(args[0].as_str(), "--update") {
        BootstrapCommand::Update
    } else if crate::chartext::str_eq(args[0].as_str(), "--replace-with-update") {
        if args.len() >= 2 {
            assert(args.deep_view()[1] == args@[1]@);
            BootstrapCommand::ReplaceWith(args[1].clone())
        } else {
            BootstrapCommand::ReplaceMissingTarget
        }
    } else {
        BootstrapCommand::Launch
    }
}

/// The forwarded arguments: everything except the cleanup flag.
pub open spec fn drop_cleanup_spec(s: Seq<Seq<char>>) -> Seq<Seq<char>>
    decreases s.len(),
{
    if s.len() == 0 {
        Seq::empty()
    } else if s[0] == "--cleanup"@ {
        drop_cleanup_spec(s.drop_first())
    } else {
        seq![s[0]] + drop_cleanup_spec(s.drop_first())
    }
}

pub proof fn lemma_drop_cleanup_snoc(s: Seq<Seq<char>>, a: Seq<char>)
    ensures
        drop_cleanup_spec(s.push(a)) == drop_cleanup_spec(s) + (if a == "--cleanup"@ {
            Seq::<Seq<char>>::empty()
        } else {
            seq![a]
        }),
    decreases s.len(),
{
    let tail: Seq<Seq<char>> = if a == "--cleanup"@ {
        Seq::empty()
    } else {
        seq![a]
    };
    if s.len() == 0 {
        assert(s.push(a)[0] == a);
        assert(s.push(a).drop_first() =~= Seq::<Seq<char>>::empty());
        assert(drop_cleanup_spec(Seq::<Seq<char>>::empty()) =~= Seq::<Seq<char>>::empty());
        assert(drop_cleanup_spec(s.push(a)) =~= drop_cleanup_spec(s) + tail);
    } else {
        assert(s.push(a)[0] == s[0]);
        assert(s.push(a).drop_first() =~= s.drop_first().push(a));
        lemma_drop_cleanup_snoc(s.drop_first(), a);
        assert(drop_cleanup_spec(s.push(a)) =~= drop_cleanup_spec(s) + tail);
    }
}

/// What the launch path decided: which binary to run, whether to export
/// the assets directory, the arguments to forward, and whether to remove
/// the extraction directory after the process exits.
#[derive(Debug)]
pub struct LaunchPlan {
    pub binary_path: String,
    pub export_assets: bool,
    pub forwarded_args: Vec<String>,
    pub cleanup: bool,
}

/// The resolver found no entry for the host.
#[derive(Debug)]
pub struct NoCompatibleBinary {
    pub platform: Platform,
    pub arch: Arch,
}

/// Decide the launch: resolve the host tags against the manifest, strip
/// the cleanup flag from the forwarded arguments, and schedule cleanup
/// exactly when the flag was present.  On a resolver miss the unresolved
/// pair is reported.
pub fn plan_launch(
    m: &Manifest,
    platform: Platform,
    arch: Arch,
    args: &Vec<String>,
    has_assets: bool,
) -> (r: Result<LaunchPlan, NoCompatibleBinary>)
    ensures
        match r {
            Result::Ok(plan) => ({
                &&& exists|i: int|
                    is_first_match(m@.targets, platform, arch, i) && plan.binary_path@
                        == "rustpack/"@ + m@.targets[i].binary_path
                &&& plan.export_assets == has_assets
                &&& plan.forwarded_args.deep_view() == drop_cleanup_spec(args.deep_view())
                &&& plan.cleanup == exists|i: int|
                    0 <= i < args.deep_view().len() && args.deep_view()[i] == "--cleanup"@
            }),
            Result::Err(e) => e.platform == platform && e.arch == arch && forall|j: int|
                0 <= j < m@.targets.len() ==> !entry_matches(m@.targets[j], platform, arch),
        },
{
    let idx = match crate::manifest::resolve(m, platform, arch) {
        Option::Some(i) => i,
        Option::None => {
            return Result::Err(NoCompatibleBinary { platform, arch });
        },
    };
    let bp = {
        let mut s = String::from_str("rustpack/");
        s.append(m.targets[idx].binary_path.as_str());
        s
    };
    assert(m@.targets[idx as int] == m.targets@[idx as int]@);
    let n = args.len();
    let mut fwd: Vec<String> = Vec::new();
    let mut cleanup = false;
    let mut k: usize = 0;
    proof {
        assert(drop_cleanup_spec(args.deep_view().take(0)) =~= Seq::<Seq<char>>::empty());
        assert(fwd.deep_view() =~= drop_cleanup_spec(args.deep_view().take(0)));
    }
    while k < n
        invariant
            n == args@.len(),
            0 <= k <= n,
            fwd.deep_view() == drop_cleanup_spec(args.deep_view().take(k as int)),
            cleanup == exists|i: int|
                0 <= i < k && args.deep_view()[i] == "--cleanup"@,
        decreases n - k,
    {
        assert(args.deep_view()[k as int] == args@[k as int]@);
        let ghost pre = fwd.deep_view();
        if crate::chartext::str_eq(args[k].as_str(), "--cleanup") {
            cleanup = true;
            assert(args.deep_view()[k as int] == "--cleanup"@);
        } else {
            fwd.push(args[k].clone());
            assert(fwd.deep_view() =~= pre.push(args@[k as int]@));
        }
        proof {
            lemma_drop_cleanup_snoc(args.deep_view().take(k as int), args.deep_view()[k as int]);
            assert(args.deep_view().take(k + 1) =~= args.deep_view().take(k as int).push(
                args.deep_view()[k as int],
            ));
            if args.deep_view()[k as int] == "--cleanup"@ {
                assert(fwd.deep_view() =~= drop_cleanup_spec(args.deep_view().take(k + 1)));
            } else {
                assert(fwd.deep_view() =~= drop_cleanup_spec(args.deep_view().take(k + 1)));
            }
        }
        k = k + 1;
    }
    proof {
        assert(args.deep_view().take(n as int) =~= args.deep_view());
    }
    Result::Ok(LaunchPlan { binary_path: bp, export_assets: has_assets, forwarded_args: fwd, cleanup })
}

#[derive(Clone, Copy, Debug, PartialEq, Eq, Structural)]
pub enum UpdateStatus {
    UpToDate,
    UpdateAvailable,
}

/// Compare the running version against the hosted one: any difference
/// counts as an available update; nothing is installed here.
pub fn check_update_status(current: &str, latest: &str) -> (r: UpdateStatus)
    ensures
        r == (if current@ == latest@ {
            UpdateStatus::UpToDate
        } else {
            UpdateStatus::UpdateAvailable
        }),
{
    if crate::chartext::str_eq(current, latest) {
        UpdateStatus::UpToDate
    } else {
        UpdateStatus::UpdateAvailable
    }
}

/// The watch-mode quiet window: act on a change notification only when
/// more than five seconds have passed since the previous rebuild began,
/// so at most one rebuild runs at a time and bursts collapse into one.
pub fn should_rebuild(last_start_ms: u64, now_ms: u64) -> (r: bool)
    ensures
        r == (now_ms >= last_start_ms && now_ms - last_start_ms > 5000),
{
    now_ms >= last_start_ms && now_ms - last_start_ms > 5000
}

/// The manifest file's place in an extracted payload.
pub open spec fn is_first_info_entry(tv: Seq<EntryV>, i: int) -> bool {
    &&& 0 <= i < tv.len()
    &&& tv[i].0 == "rustpack/info.json"@
    &&& tv[i].1 is Some
    &&& forall|j: int|
        0 <= j < i ==> !((#[trigger] tv[j]).0 == "rustpack/info.json"@ && tv[j].1 is Some)
}

/// Read the manifest out of an extracted payload tree: the first file
/// entry at the manifest's path, parsed.  On a tree whose manifest file
/// holds the serialized form of some manifest, that manifest is
/// returned.
pub fn read_manifest_from_tree(tree: &Vec<PayloadEntry>) -> (r: Option<Manifest>)
    ensures
        forall|i: int, mv: ManifestV|
            #![trigger tree_view(tree@)[i], jmanifest(mv)]
            is_first_info_entry(tree_view(tree@), i) && (tree_view(tree@)[i].1->0).0 == jmanifest(
                mv,
            ) ==> (r matches Option::Some(m) && m@ == mv),
{
    let n = tree.len();
    let mut k: usize = 0;
    while k < n
        invariant
            n == tree@.len(),
            0 <= k <= n,
            forall|j: int|
                0 <= j < k ==> !((#[trigger] tree_view(tree@)[j]).0 == "rustpack/info.json"@
                    && tree_view(tree@)[j].1 is Some),
        decreases n - k,
    {
        assert(tree_view(tree@)[k as int] == tree@[k as int]@);
        match &tree[k] {
            PayloadEntry::File { path, data, .. } => {
                if crate::chartext::str_eq(path.as_str(), "rustpack/info.json") {
                    assert(is_first_info_entry(tree_view(tree@), k as int));
                    let r = crate::manifest_text::parse_manifest_bytes(data.as_slice());
                    proof {
                        assert(forall|i: int|
                            is_first_info_entry(tree_view(tree@), i) ==> i == k as int);
                    }
                    return r;
                }
            },
            PayloadEntry::Dir { .. } => {},
        }
        k = k + 1;
    }
    assert(forall|i: int| !is_first_info_entry(tree_view(tree@), i));
    Option::None
}

} // verus!
