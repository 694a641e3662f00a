use rustpack::assemble::cargo_build_args;
use rustpack::bootstrap::{
    check_update_status,
    parse_bootstrap_command,
    plan_launch,
    should_rebuild,
    BootstrapCommand,
    UpdateStatus,
};
use rustpack::cargo_meta::{get_project_description, get_project_name, get_project_version};
use rustpack::integrity::{digest, sign};
use rustpack::manifest::{Manifest, TargetEntry};
use rustpack::platform::{Arch, Platform};
use rustpack::stamp::{base36_string, random_string};

#[test]
fn digest_is_deterministic_and_content_sensitive() {
    let x = b"artifact bytes";
    let y = b"artifact bytes!";
    assert_eq!(digest(x), digest(x));
    assert_ne!(digest(x), digest(y));
}

#[test]
fn digest_matches_known_value() {
    assert_eq!(
        digest(b"abc"),
        "ba7816bf8f01cfea414140de5dae2223b00361a396177a9cb410ff61f20015ad".to_string(),
    );
    assert_eq!(
        digest(b""),
        "e3b0c44298fc1c149afbf4c8996fb92427ae41e4649b934ca495991b7852b855".to_string(),
    );
}

#[test]
fn signature_is_deterministic_and_key_sensitive() {
    let artifact = b"finished artifact";
    let s1 = sign(artifact, "key-one");
    let s2 = sign(artifact, "key-one");
    let s3 = sign(artifact, "key-two");
    assert_eq!(s1, s2);
    assert_ne!(s1, s3);
    assert_ne!(sign(b"other artifact", "key-one"), s1);
}

#[test]
fn bootstrap_subcommands_recognized_before_launch() {
    let args = |v: &[&str]| v.iter().map(|s| s.to_string()).collect::<Vec<_>>();
    assert!(matches!(
        parse_bootstrap_command(&args(&["--check-updates"])),
        BootstrapCommand::CheckUpdates,
    ));
    assert!(matches!(parse_bootstrap_command(&args(&["--update"])), BootstrapCommand::Update));
    match parse_bootstrap_command(&args(&["--replace-with-update", "/usr/bin/app"])) {
        BootstrapCommand::ReplaceWith(p) => assert_eq!(p, "/usr/bin/app"),
        _ => panic!("self-replace must carry its target"),
    }
    assert!(matches!(
        parse_bootstrap_command(&args(&["--replace-with-update"])),
        BootstrapCommand::ReplaceMissingTarget,
    ));
    assert!(matches!(parse_bootstrap_command(&args(&[])), BootstrapCommand::Launch));
    assert!(matches!(parse_bootstrap_command(&args(&["--verbose"])), BootstrapCommand::Launch));
}

#[test]
fn launch_plan_strips_cleanup_flag() {
    let m = Manifest {
        name: "app".to_string(),
        version: "1".to_string(),
        description: None,
        targets: vec![
            TargetEntry {
                platform: Platform::Linux,
                arch: Arch::X86_64,
                binary_path: "bin/linux-x86_64/app".to_string(),
                features: Vec::new(),
                optimizations: None,
                compatibility: Vec::new(),
            },
        ],
        created_at: String::new(),
        install_token: String::new(),
        features: Vec::new(),
        metadata: Vec::new(),
    };
    let args = vec!["--cleanup".to_string(), "run".to_string(), "--fast".to_string()];
    let plan = plan_launch(&m, Platform::Linux, Arch::X86_64, &args, true).expect("must resolve");
    assert_eq!(plan.binary_path, "rustpack/bin/linux-x86_64/app");
    assert!(plan.export_assets);
    assert!(plan.cleanup);
    assert_eq!(plan.forwarded_args, vec!["run".to_string(), "--fast".to_string()]);

    let plain = vec!["run".to_string()];
    let plan2 = plan_launch(&m, Platform::Linux, Arch::X86_64, &plain, false).unwrap();
    assert!(!plan2.cleanup);
    assert_eq!(plan2.forwarded_args, plain);

    let miss = plan_launch(&m, Platform::Macos, Arch::Aarch64, &plain, false);
    match miss {
        Err(e) => {
            assert_eq!(e.platform, Platform::Macos);
            assert_eq!(e.arch, Arch::Aarch64);
        },
        Ok(_) => panic!("an absent pair must not resolve"),
    }
}

#[test]
fn update_status_compares_versions() {
    assert_eq!(check_update_status("1.2.3", "1.2.3"), UpdateStatus::UpToDate);
    assert_eq!(check_update_status("1.2.3", "1.3.0"), UpdateStatus::UpdateAvailable);
}

#[test]
fn quiet_window_is_five_seconds() {
    assert!(!should_rebuild(1000, 5999));
    assert!(!should_rebuild(1000, 6000));
    assert!(should_rebuild(1000, 6001));
    assert!(!should_rebuild(6000, 1000));
}

#[test]
fn cargo_fields_read_from_manifest_text() {
    let content = "\n[package]\nname = \"demo\"\nversion = \"0.2.0\"\n  description = \"a demo\"\n";
    assert_eq!(get_project_name(content), Some("demo".to_string()));
    assert_eq!(get_project_version(content), Some("0.2.0".to_string()));
    assert_eq!(get_project_description(content), Some("a demo".to_string()));
    assert_eq!(get_project_name("no fields here"), None);
}

#[test]
fn build_args_follow_profile_target_features() {
    let args = cargo_build_args("release", "x86_64-unknown-linux-gnu", &vec![
        "one".to_string(),
        "two".to_string(),
    ]);
    assert_eq!(args, vec![
        "build".to_string(),
        "--release".to_string(),
        "--target".to_string(),
        "x86_64-unknown-linux-gnu".to_string(),
        "--features".to_string(),
        "one,two".to_string(),
    ]);
    let bare = cargo_build_args("dev", "t", &Vec::new());
    assert_eq!(bare, vec![
        "build".to_string(),
        "--dev".to_string(),
        "--target".to_string(),
        "t".to_string(),
    ]);
}

#[test]
fn scratch_names_have_length_and_alphabet() {
    let s = random_string(8);
    assert_eq!(s.len(), 8);
    assert!(s.chars().all(|c| c.is_ascii_digit() || (c.is_ascii_lowercase())));
    assert_eq!(base36_string(0, 3), "000");
    // 35 renders as 'z', then zeros follow for the remaining width.
    assert_eq!(base36_string(35, 2), "z0");
    // 36 is '0' then '1', least significant digit first.
    assert_eq!(base36_string(36, 2), "01");
}
