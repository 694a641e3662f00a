use rustpack::archive::{
    encode_self_extracting,
    encode_zip_archive,
    extract_self_extracting,
    extract_zip_archive,
    LAUNCHER_TEXT,
};
use rustpack::assemble::{assemble_tree, AssembleError, AssetInput, AssetSource, TargetBuild};
use rustpack::bootstrap::{find_payload_start, read_manifest_from_tree};
use rustpack::payload::{validate_tree, PayloadEntry};
use rustpack::platform::{Arch, Platform};

fn sample_build() -> TargetBuild {
    TargetBuild {
        platform: Platform::Linux,
        arch: Arch::X86_64,
        binary: b"\x7fELF fake binary bytes".to_vec(),
        features: vec!["fast".to_string()],
        optimizations: Some("lto-thin".to_string()),
        compatibility: vec!["glibc-2.17".to_string(), "elf".to_string()],
    }
}

fn sample_tree() -> (Vec<PayloadEntry>, rustpack::manifest::Manifest) {
    let builds = vec![sample_build()];
    let assets = vec![
        AssetInput {
            declared: "assets".to_string(),
            source: AssetSource::Dir {
                entries: vec![
                    PayloadEntry::File {
                        path: "notes.txt".to_string(),
                        data: b"asset file".to_vec(),
                        executable: false,
                    },
                ],
            },
        },
    ];
    let root_files = vec![("LICENSE".to_string(), b"MIT License".to_vec())];
    let metadata = vec![("rust_version".to_string(), "rustc 1.0".to_string())];
    assemble_tree(
        "demo",
        "0.2.0",
        &Some("a demo package".to_string()),
        &builds,
        &assets,
        &root_files,
        &metadata,
        "2024-01-01T00:00:00+00:00",
        "tok0123456789abc",
    )
        .expect("assembly must succeed")
}

fn entries_equal(a: &PayloadEntry, b: &PayloadEntry) -> bool {
    match (a, b) {
        (PayloadEntry::Dir { path: p1 }, PayloadEntry::Dir { path: p2 }) => p1 == p2,
        (
            PayloadEntry::File { path: p1, data: d1, executable: e1 },
            PayloadEntry::File { path: p2, data: d2, executable: e2 },
        ) => p1 == p2 && d1 == d2 && e1 == e2,
        _ => false,
    }
}

#[test]
fn self_extracting_round_trip() {
    let (tree, manifest) = sample_tree();
    assert!(validate_tree(&tree));
    let artifact = encode_self_extracting(&tree).expect("valid tree must encode");
    let back = extract_self_extracting(&artifact).expect("own artifact must extract");
    assert_eq!(back.len(), tree.len());
    for (x, y) in back.iter().zip(tree.iter()) {
        assert!(entries_equal(x, y));
    }
    let m2 = read_manifest_from_tree(&back).expect("manifest must read back");
    assert_eq!(m2.name, manifest.name);
    assert_eq!(m2.version, manifest.version);
    assert_eq!(m2.description, manifest.description);
    assert_eq!(m2.created_at, manifest.created_at);
    assert_eq!(m2.install_token, manifest.install_token);
    assert_eq!(m2.features, manifest.features);
    assert_eq!(m2.metadata, manifest.metadata);
    assert_eq!(m2.targets.len(), manifest.targets.len());
    assert_eq!(m2.targets[0].platform, manifest.targets[0].platform);
    assert_eq!(m2.targets[0].arch, manifest.targets[0].arch);
    assert_eq!(m2.targets[0].binary_path, manifest.targets[0].binary_path);
    assert_eq!(m2.targets[0].features, manifest.targets[0].features);
    assert_eq!(m2.targets[0].optimizations, manifest.targets[0].optimizations);
    assert_eq!(m2.targets[0].compatibility, manifest.targets[0].compatibility);
}

#[test]
fn zip_round_trip() {
    // The plain archive tags every file entry with the blanket executable
    // permission bit, so paths and contents come back identical and every
    // file reads back as executable.
    let (tree, _) = sample_tree();
    let archive = encode_zip_archive(&tree).expect("valid tree must encode");
    let back = extract_zip_archive(&archive).expect("own archive must extract");
    assert_eq!(back.len(), tree.len());
    for (x, y) in back.iter().zip(tree.iter()) {
        match (x, y) {
            (PayloadEntry::Dir { path: p1 }, PayloadEntry::Dir { path: p2 }) => {
                assert_eq!(p1, p2);
            },
            (
                PayloadEntry::File { path: p1, data: d1, executable: e1 },
                PayloadEntry::File { path: p2, data: d2, .. },
            ) => {
                assert_eq!(p1, p2);
                assert_eq!(d1, d2);
                assert!(*e1, "every plain-archive file entry carries the executable bit");
            },
            _ => panic!("entry kinds must agree"),
        }
    }
}

#[test]
fn artifact_starts_with_launcher_and_marker_is_found() {
    let (tree, _) = sample_tree();
    let artifact = encode_self_extracting(&tree).expect("valid tree must encode");
    let launcher = LAUNCHER_TEXT.as_bytes();
    assert!(artifact.len() > launcher.len());
    assert_eq!(&artifact[..launcher.len()], launcher);
    // The first marker line is the launcher's last line, so the payload
    // begins exactly where the launcher ends.
    let start = find_payload_start(&artifact).expect("marker must be present");
    assert_eq!(start, launcher.len());
}

#[test]
fn extraction_rejects_foreign_bytes() {
    assert!(extract_self_extracting(b"#!/bin/sh\necho hello\n").is_err());
    assert!(extract_zip_archive(b"not a zip archive").is_err());
}

#[test]
fn binary_layout_and_manifest_paths_agree() {
    let (tree, manifest) = sample_tree();
    assert_eq!(manifest.targets[0].binary_path, "bin/linux-x86_64/demo");
    let expect_path = "rustpack/bin/linux-x86_64/demo".to_string();
    let found = tree.iter().any(|e| match e {
        PayloadEntry::File { path, executable, .. } => *path == expect_path && *executable,
        _ => false,
    });
    assert!(found, "binary entry must sit under its target label");
}

#[test]
fn missing_asset_fails_before_any_encoding() {
    let builds = vec![sample_build()];
    let assets = vec![
        AssetInput { declared: "present".to_string(), source: AssetSource::File {
            name: "present".to_string(),
            data: b"x".to_vec(),
        } },
        AssetInput { declared: "missing-dir".to_string(), source: AssetSource::Missing },
    ];
    let r = assemble_tree(
        "demo",
        "0.2.0",
        &None,
        &builds,
        &assets,
        &Vec::new(),
        &Vec::new(),
        "2024-01-01T00:00:00+00:00",
        "tok0123456789abc",
    );
    match r {
        Err(AssembleError::AssetNotFound(p)) => assert_eq!(p, "missing-dir"),
        _ => panic!("a declared but absent asset must fail assembly"),
    }
}

#[test]
fn unclean_project_name_is_refused() {
    let builds = vec![sample_build()];
    let r = assemble_tree(
        "evil/../name",
        "0.1.0",
        &None,
        &builds,
        &Vec::new(),
        &Vec::new(),
        &Vec::new(),
        "2024-01-01T00:00:00+00:00",
        "tok0123456789abc",
    );
    assert!(matches!(r, Err(AssembleError::ConfigError(_))));
}

#[test]
fn license_placeholder_when_none_found() {
    let (tree, _) = {
        let builds = vec![sample_build()];
        assemble_tree(
            "demo",
            "0.2.0",
            &None,
            &builds,
            &Vec::new(),
            &Vec::new(),
            &Vec::new(),
            "2024-01-01T00:00:00+00:00",
            "tok0123456789abc",
        )
            .unwrap()
    };
    let found = tree.iter().any(|e| match e {
        PayloadEntry::File { path, data, .. } => path == "rustpack/LICENSE.note" && data
            == &b"No license file detected in the original project.".to_vec(),
        _ => false,
    });
    assert!(found);
}

#[test]
fn license_candidates_tried_in_order() {
    let files = vec![
        ("LICENCE".to_string(), b"british".to_vec()),
        ("LICENSE.txt".to_string(), b"texty".to_vec()),
    ];
    let e = rustpack::assemble::detect_license(&files);
    match e {
        PayloadEntry::File { path, data, .. } => {
            assert_eq!(path, "rustpack/LICENSE");
            assert_eq!(data, b"texty".to_vec());
        },
        _ => panic!("license entry must be a file"),
    }
}

#[test]
fn one_step_packaging_matches_two_step() {
    let builds = vec![sample_build()];
    let (bytes, manifest) = rustpack::assemble::build_package_bytes(
        "demo",
        "0.2.0",
        &None,
        &builds,
        &Vec::new(),
        &Vec::new(),
        &Vec::new(),
        "2024-01-01T00:00:00+00:00",
        "tok0123456789abc",
        false,
    )
        .expect("a clean package must build");
    assert!(bytes.starts_with(LAUNCHER_TEXT.as_bytes()));
    let back = extract_self_extracting(&bytes).expect("own artifact must extract");
    let m2 = read_manifest_from_tree(&back).expect("manifest must read back");
    assert_eq!(m2.name, manifest.name);
    assert_eq!(m2.install_token, "tok0123456789abc");

    let (zip_bytes, _) = rustpack::assemble::build_package_bytes(
        "demo",
        "0.2.0",
        &None,
        &builds,
        &Vec::new(),
        &Vec::new(),
        &Vec::new(),
        "2024-01-01T00:00:00+00:00",
        "tok0123456789abc",
        true,
    )
        .unwrap();
    assert!(extract_zip_archive(&zip_bytes).is_ok());
}
