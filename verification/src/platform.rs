//! Normalized platform and architecture tags, the pure mapping from raw
//! host-reported kernel/arch strings to those tags, and the parsing of a
//! build-target triple into a tag pair plus compatibility markers.

use vstd::prelude::*;
use crate::chartext::{chars_of, chars_contain, chars_eq, contains_seq, matches_at};

verus! {

#[derive(Clone, Copy, Debug, PartialEq, Eq, Structural)]
pub enum Platform {
    Linux,
    Macos,
    Windows,
    Unknown,
}

#[derive(Clone, Copy, Debug, PartialEq, Eq, Structural)]
pub enum Arch {
    X86_64,
    Aarch64,
    X86,
    Arm,
    Unknown,
}

/// ASCII lowercasing of one character; other characters are unchanged.
pub open spec fn lower_char(c: char) -> char {
    if 'A' <= c && c <= 'Z' {
        ((c as u8) + 32) as char
    } else {
        c
    }
}

/// ASCII lowercasing of a character sequence.
pub open spec fn lower_chars(s: Seq<char>) -> Seq<char> {
    s.map_values(|c: char| lower_char(c))
}

/// The platform tag for a raw kernel name, compared case-insensitively:
/// "darwin" is macos, "linux" is linux, anything mentioning mingw, cygwin
/// or msys is windows, and the rest is unknown.
pub open spec fn normalize_platform_spec(kernel: Seq<char>) -> Platform {
    let k = lower_chars(kernel);
    if k == "darwin"@ {
        Platform::Macos
    } else if k == "linux"@ {
        Platform::Linux
    } else if contains_seq(k, "mingw"@) || contains_seq(k, "cygwin"@) || contains_seq(
        k,
        "msys"@,
    ) {
        Platform::Windows
    } else {
        Platform::Unknown
    }
}

/// The architecture tag for a raw machine name, matched exactly.
pub open spec fn normalize_arch_spec(arch: Seq<char>) -> Arch {
    if arch == "x86_64"@ || arch == "amd64"@ {
        Arch::X86_64
    } else if arch == "arm64"@ || arch == "aarch64"@ {
        Arch::Aarch64
    } else if arch == "i386"@ || arch == "i686"@ {
        Arch::X86
    } else if arch == "arm"@ || arch == "armv7l"@ {
        Arch::Arm
    } else {
        Arch::Unknown
    }
}

pub open spec fn platform_name_spec(p: Platform) -> Seq<char> {
    match p {
        Platform::Linux => "linux"@,
        Platform::Macos => "macos"@,
        Platform::Windows => "windows"@,
        Platform::Unknown => "unknown"@,
    }
}

pub open spec fn arch_name_spec(a: Arch) -> Seq<char> {
    match a {
        Arch::X86_64 => "x86_64"@,
        Arch::Aarch64 => "aarch64"@,
        Arch::X86 => "x86"@,
        Arch::Arm => "arm"@,
        Arch::Unknown => "unknown"@,
    }
}

/// The path segment under which a target's binary is laid out.
pub open spec fn target_label_spec(p: Platform, a: Arch) -> Seq<char> {
    platform_name_spec(p) + "-"@ + arch_name_spec(a)
}

/// The executable-file suffix a platform expects.
pub open spec fn exe_suffix_spec(p: Platform) -> Seq<char> {
    match p {
        Platform::Windows => ".exe"@,
        _ => ""@,
    }
}

/// ASCII-lowercase one character.
pub fn to_lower_char(c: char) -> (r: char)
    ensures
        r == lower_char(c),
{
    if 'A' <= c && c <= 'Z' {
        ((c as u8) + 32) as char
    } else {
        c
    }
}

/// The ASCII-lowercased characters of a string.
pub fn lower_chars_of(s: &str) -> (r: Vec<char>)
    ensures
        r@ == lower_chars(s@),
{
    let cs = chars_of(s);
    let mut v: Vec<char> = Vec::new();
    let mut i: usize = 0;
    let n = cs.len();
    while i < n
        invariant
            n == cs@.len(),
            cs@ == s@,
            0 <= i <= n,
            v@ =~= lower_chars(s@).subrange(0, i as int),
        decreases n - i,
    {
        v.push(to_lower_char(cs[i]));
        assert(v@ =~= lower_chars(s@).subrange(0, i + 1 as int));
        i = i + 1;
    }
    assert(v@ =~= lower_chars(s@));
    v
}

/// Map raw kernel and machine names, as a host reports them, to tags.
pub fn normalize(kernel: &str, arch: &str) -> (r: (Platform, Arch))
    ensures
        r.0 == normalize_platform_spec(kernel@),
        r.1 == normalize_arch_spec(arch@),
{
    (normalize_platform(kernel), normalize_arch(arch))
}

/// Map a raw kernel name to a platform tag.
pub fn normalize_platform(kernel: &str) -> (r: Platform)
    ensures
        r == normalize_platform_spec(kernel@),
{
    let k = lower_chars_of(kernel);
    let darwin = chars_of("darwin");
    let linux = chars_of("linux");
    if chars_eq(k.as_slice(), darwin.as_slice()) {
        Platform::Macos
    } else if chars_eq(k.as_slice(), linux.as_slice()) {
        Platform::Linux
    } else {
        let mingw = chars_of("mingw");
        let cygwin = chars_of("cygwin");
        let msys = chars_of("msys");
        if chars_contain(k.as_slice(), mingw.as_slice()) || chars_contain(
            k.as_slice(),
            cygwin.as_slice(),
        ) || chars_contain(k.as_slice(), msys.as_slice()) {
            Platform::Windows
        } else {
            Platform::Unknown
        }
    }
}

/// Map a raw machine name to an architecture tag.
pub fn normalize_arch(arch: &str) -> (r: Arch)
    ensures
        r == normalize_arch_spec(arch@),
{
    let a = chars_of(arch);
    let s = a.as_slice();
    if chars_eq(s, chars_of("x86_64").as_slice()) || chars_eq(s, chars_of("amd64").as_slice()) {
        Arch::X86_64
    } else if chars_eq(s, chars_of("arm64").as_slice()) || chars_eq(
        s,
        chars_of("aarch64").as_slice(),
    ) {
        Arch::Aarch64
    } else if chars_eq(s, chars_of("i386").as_slice()) || chars_eq(
        s,
        chars_of("i686").as_slice(),
    ) {
        Arch::X86
    } else if chars_eq(s, chars_of("arm").as_slice()) || chars_eq(
        s,
        chars_of("armv7l").as_slice(),
    ) {
        Arch::Arm
    } else {
        Arch::Unknown
    }
}

/// The platform's name, as used in manifests and path labels.
pub fn platform_name(p: Platform) -> (r: &'static str)
    ensures
        r@ == platform_name_spec(p),
{
    match p {
        Platform::Linux => "linux",
        Platform::Macos => "macos",
        Platform::Windows => "windows",
        Platform::Unknown => "unknown",
    }
}

/// The architecture's name, as used in manifests and path labels.
pub fn arch_name(a: Arch) -> (r: &'static str)
    ensures
        r@ == arch_name_spec(a),
{
    match a {
        Arch::X86_64 => "x86_64",
        Arch::Aarch64 => "aarch64",
        Arch::X86 => "x86",
        Arch::Arm => "arm",
        Arch::Unknown => "unknown",
    }
}

/// The path segment under which a target's binary is laid out.
pub fn target_label(p: Platform, a: Arch) -> (r: String)
    ensures
        r@ == target_label_spec(p, a),
{
    let mut s = String::from_str(platform_name(p));
    s.append("-");
    s.append(arch_name(a));
    s
}

/// The executable-file suffix a platform expects.
pub fn exe_suffix(p: Platform) -> (r: &'static str)
    ensures
        r@ == exe_suffix_spec(p),
{
    match p {
        Platform::Windows => ".exe",
        _ => "",
    }
}

/// The platform whose name is exactly `s`; any other text is unknown.
pub open spec fn platform_of_name_spec(s: Seq<char>) -> Platform {
    if s == "linux"@ {
        Platform::Linux
    } else if s == "macos"@ {
        Platform::Macos
    } else if s == "windows"@ {
        Platform::Windows
    } else {
        Platform::Unknown
    }
}

/// The architecture whose name is exactly `s`; any other text is unknown.
pub open spec fn arch_of_name_spec(s: Seq<char>) -> Arch {
    if s == "x86_64"@ {
        Arch::X86_64
    } else if s == "aarch64"@ {
        Arch::Aarch64
    } else if s == "x86"@ {
        Arch::X86
    } else if s == "arm"@ {
        Arch::Arm
    } else {
        Arch::Unknown
    }
}

/// Map a stored platform name back to its tag.
pub fn platform_of_name(s: &str) -> (r: Platform)
    ensures
        r == platform_of_name_spec(s@),
{
    if crate::chartext::str_eq(s, "linux") {
        Platform::Linux
    } else if crate::chartext::str_eq(s, "macos") {
        Platform::Macos
    } else if crate::chartext::str_eq(s, "windows") {
        Platform::Windows
    } else {
        Platform::Unknown
    }
}

/// Map a stored architecture name back to its tag.
pub fn arch_of_name(s: &str) -> (r: Arch)
    ensures
        r == arch_of_name_spec(s@),
{
    if crate::chartext::str_eq(s, "x86_64") {
        Arch::X86_64
    } else if crate::chartext::str_eq(s, "aarch64") {
        Arch::Aarch64
    } else if crate::chartext::str_eq(s, "x86") {
        Arch::X86
    } else if crate::chartext::str_eq(s, "arm") {
        Arch::Arm
    } else {
        Arch::Unknown
    }
}

/// A platform's name maps back to the platform.
pub proof fn lemma_platform_name_round_trip(p: Platform)
    ensures
        platform_of_name_spec(platform_name_spec(p)) == p,
{
    reveal_strlit("linux");
    reveal_strlit("macos");
    reveal_strlit("windows");
    reveal_strlit("unknown");
    assert("linux"@.len() == 5 && "macos"@.len() == 5 && "windows"@.len() == 7 && "unknown"@.len()
        == 7);
    match p {
        Platform::Linux => {
        },
        Platform::Macos => {
            assert("macos"@ != "linux"@) by {
                assert("macos"@[0] == 'm' && "linux"@[0] == 'l');
            }
        },
        Platform::Windows => {
        },
        Platform::Unknown => {
            assert("unknown"@ != "windows"@) by {
                assert("unknown"@[0] == 'u' && "windows"@[0] == 'w');
            }
        },
    }
}

/// An architecture's name maps back to the architecture.
pub proof fn lemma_arch_name_round_trip(a: Arch)
    ensures
        arch_of_name_spec(arch_name_spec(a)) == a,
{
    reveal_strlit("x86_64");
    reveal_strlit("aarch64");
    reveal_strlit("x86");
    reveal_strlit("arm");
    reveal_strlit("unknown");
    assert("x86_64"@.len() == 6 && "aarch64"@.len() == 7 && "x86"@.len() == 3 && "arm"@.len() == 3
        && "unknown"@.len() == 7);
    match a {
        Arch::X86_64 => {
        },
        Arch::Aarch64 => {
        },
        Arch::X86 => {
        },
        Arch::Arm => {
            assert("arm"@ != "x86"@) by {
                assert("arm"@[0] == 'a' && "x86"@[0] == 'x');
            }
        },
        Arch::Unknown => {
            assert("unknown"@ != "aarch64"@) by {
                assert("unknown"@[0] == 'u' && "aarch64"@[0] == 'a');
            }
        },
    }
}

/// `c` occurs first in `s` at position `i`.
pub open spec fn is_first_occurrence(s: Seq<char>, c: char, i: int) -> bool {
    &&& 0 <= i < s.len()
    &&& s[i] == c
    &&& forall|j: int| 0 <= j < i ==> s[j] != c
}

/// The platform a build-target triple names: any mention of "windows" wins,
/// then "linux", then "darwin" or "apple" for macos.
pub open spec fn triple_platform_spec(t: Seq<char>) -> Platform {
    if contains_seq(t, "windows"@) {
        Platform::Windows
    } else if contains_seq(t, "linux"@) {
        Platform::Linux
    } else if contains_seq(t, "darwin"@) || contains_seq(t, "apple"@) {
        Platform::Macos
    } else {
        Platform::Unknown
    }
}

/// The compatibility markers recorded for a platform: a minimum OS or libc
/// level and the binary format.
pub open spec fn compatibility_spec(p: Platform) -> Seq<Seq<char>> {
    match p {
        Platform::Windows => seq!["nt6.1"@, "pe"@],
        Platform::Linux => seq!["glibc-2.17"@, "elf"@],
        Platform::Macos => seq!["10.7"@, "mach-o"@],
        Platform::Unknown => Seq::empty(),
    }
}

/// Split a build-target triple such as "x86_64-unknown-linux-gnu" into a
/// platform tag, an architecture tag (from the part before the first dash)
/// and the platform's compatibility markers.  A string without a dash is
/// not a triple and maps to unknown tags.
pub fn parse_target(target: &str) -> (r: (Platform, Arch, Vec<String>))
    ensures
        (forall|i: int| 0 <= i < target@.len() ==> target@[i] != '-') ==> (r.0 == Platform::Unknown
            && r.1 == Arch::Unknown && r.2@.len() == 0),
        forall|d: int|
            is_first_occurrence(target@, '-', d) ==> (r.0 == triple_platform_spec(target@) && r.1
                == normalize_arch_spec(target@.subrange(0, d)) && r.2.deep_view()
                == compatibility_spec(r.0)),
{
    let cs = chars_of(target);
    let n = cs.len();
    let mut dash: usize = 0;
    while dash < n && cs[dash] != '-'
        invariant
            n == cs@.len(),
            cs@ == target@,
            0 <= dash <= n,
            forall|j: int| 0 <= j < dash ==> cs@[j] != '-',
        decreases n - dash,
    {
        dash = dash + 1;
    }
    if dash == n {
        let empty: Vec<String> = Vec::new();
        assert(forall|d: int| !is_first_occurrence(target@, '-', d));
        return (Platform::Unknown, Arch::Unknown, empty);
    }
    assert(is_first_occurrence(target@, '-', dash as int));
    let platform = if chars_contain(cs.as_slice(), chars_of("windows").as_slice()) {
        Platform::Windows
    } else if chars_contain(cs.as_slice(), chars_of("linux").as_slice()) {
        Platform::Linux
    } else if chars_contain(cs.as_slice(), chars_of("darwin").as_slice()) || chars_contain(
        cs.as_slice(),
        chars_of("apple").as_slice(),
    ) {
        Platform::Macos
    } else {
        Platform::Unknown
    };
    let arch_part = target.substring_char(0, dash);
    let arch = normalize_arch(arch_part);
    let mut compat: Vec<String> = Vec::new();
    match platform {
        Platform::Windows => {
            compat.push(String::from_str("nt6.1"));
            compat.push(String::from_str("pe"));
        },
        Platform::Linux => {
            compat.push(String::from_str("glibc-2.17"));
            compat.push(String::from_str("elf"));
        },
        Platform::Macos => {
            compat.push(String::from_str("10.7"));
            compat.push(String::from_str("mach-o"));
        },
        Platform::Unknown => {},
    }
    assert(compat.deep_view() =~= compatibility_spec(platform));
    assert(forall|d: int|
        is_first_occurrence(target@, '-', d) ==> d == dash as int) by {
        assert forall|d: int| is_first_occurrence(target@, '-', d) implies d == dash as int by {
            if d < dash as int {
                assert(target@[d] != '-');
            }
            if d > dash as int {
                assert(target@[dash as int] != '-');
            }
        }
    }
    (platform, arch, compat)
}

} // verus!
