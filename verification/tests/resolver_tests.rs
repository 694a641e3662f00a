use rustpack::manifest::{resolve, Manifest, TargetEntry};
use rustpack::platform::{
    arch_name,
    normalize,
    normalize_arch,
    normalize_platform,
    parse_target,
    platform_name,
    target_label,
    Arch,
    Platform,
};

fn lower(s: &str) -> String {
    s.chars().map(|c| c.to_ascii_lowercase()).collect()
}

fn entry(platform: Platform, arch: Arch, path: &str) -> TargetEntry {
    TargetEntry {
        platform,
        arch,
        binary_path: path.to_string(),
        features: Vec::new(),
        optimizations: None,
        compatibility: Vec::new(),
    }
}

fn two_target_manifest() -> Manifest {
    Manifest {
        name: "app".to_string(),
        version: "1.0.0".to_string(),
        description: None,
        targets: vec![
            entry(Platform::Linux, Arch::X86_64, "bin/linux-x86_64/app"),
            entry(Platform::Macos, Arch::Aarch64, "bin/macos-aarch64/app"),
        ],
        created_at: "2024-01-01T00:00:00+00:00".to_string(),
        install_token: "tok".to_string(),
        features: Vec::new(),
        metadata: Vec::new(),
    }
}

#[test]
fn host_scenario_resolves_first_entry() {
    // Host reports kernel "Linux", arch "x86_64"; the launcher lowercases
    // the kernel name before normalization.
    let m = two_target_manifest();
    let (p, a) = normalize(&lower("Linux"), "x86_64");
    assert_eq!(p, Platform::Linux);
    assert_eq!(a, Arch::X86_64);
    let idx = resolve(&m, p, a).expect("host must resolve");
    assert_eq!(idx, 0);
    assert_eq!(m.targets[idx].binary_path, "bin/linux-x86_64/app");
}

#[test]
fn resolver_misses_report_none() {
    let m = two_target_manifest();
    assert!(resolve(&m, Platform::Windows, Arch::X86_64).is_none());
    assert!(resolve(&m, Platform::Linux, Arch::Arm).is_none());
}

#[test]
fn duplicate_pairs_resolve_to_first_in_order() {
    let mut m = two_target_manifest();
    m.targets.push(entry(Platform::Linux, Arch::X86_64, "bin/dup/app"));
    let idx = resolve(&m, Platform::Linux, Arch::X86_64).unwrap();
    assert_eq!(idx, 0);
}

#[test]
fn kernel_names_normalize() {
    assert_eq!(normalize_platform("darwin"), Platform::Macos);
    assert_eq!(normalize_platform("linux"), Platform::Linux);
    assert_eq!(normalize_platform("mingw64_nt-10.0"), Platform::Windows);
    assert_eq!(normalize_platform("cygwin_nt"), Platform::Windows);
    assert_eq!(normalize_platform("msys_nt"), Platform::Windows);
    assert_eq!(normalize_platform("plan9"), Platform::Unknown);
    assert_eq!(normalize_platform(&lower("DARWIN")), Platform::Macos);
}

#[test]
fn machine_names_normalize() {
    assert_eq!(normalize_arch("x86_64"), Arch::X86_64);
    assert_eq!(normalize_arch("amd64"), Arch::X86_64);
    assert_eq!(normalize_arch("arm64"), Arch::Aarch64);
    assert_eq!(normalize_arch("aarch64"), Arch::Aarch64);
    assert_eq!(normalize_arch("i386"), Arch::X86);
    assert_eq!(normalize_arch("i686"), Arch::X86);
    assert_eq!(normalize_arch("arm"), Arch::Arm);
    assert_eq!(normalize_arch("armv7l"), Arch::Arm);
    assert_eq!(normalize_arch("riscv64"), Arch::Unknown);
}

#[test]
fn target_triples_parse() {
    let (p, a, compat) = parse_target("x86_64-unknown-linux-gnu");
    assert_eq!(p, Platform::Linux);
    assert_eq!(a, Arch::X86_64);
    assert_eq!(compat, vec!["glibc-2.17".to_string(), "elf".to_string()]);

    let (p, a, compat) = parse_target("aarch64-apple-darwin");
    assert_eq!(p, Platform::Macos);
    assert_eq!(a, Arch::Aarch64);
    assert_eq!(compat, vec!["10.7".to_string(), "mach-o".to_string()]);

    let (p, a, compat) = parse_target("i686-pc-windows-msvc");
    assert_eq!(p, Platform::Windows);
    assert_eq!(a, Arch::X86);
    assert_eq!(compat, vec!["nt6.1".to_string(), "pe".to_string()]);

    let (p, a, compat) = parse_target("nodashes");
    assert_eq!(p, Platform::Unknown);
    assert_eq!(a, Arch::Unknown);
    assert!(compat.is_empty());
}

#[test]
fn labels_and_names() {
    assert_eq!(target_label(Platform::Linux, Arch::X86_64), "linux-x86_64");
    assert_eq!(platform_name(Platform::Windows), "windows");
    assert_eq!(arch_name(Arch::Aarch64), "aarch64");
}
