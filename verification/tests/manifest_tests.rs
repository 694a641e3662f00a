use rustpack::manifest::{metadata_get, setup_auto_update, update_url_of, Manifest, TargetEntry};
use rustpack::manifest_text::{manifest_to_bytes, parse_manifest_bytes};
use rustpack::platform::{Arch, Platform};

fn awkward_manifest() -> Manifest {
    Manifest {
        name: "we\"ird\\name\nwith\tcontrol".to_string(),
        version: "1.0.0-\u{1F4E6}".to_string(),
        description: Some("quotes \" and \\ backslashes \u{0007}".to_string()),
        targets: vec![
            TargetEntry {
                platform: Platform::Windows,
                arch: Arch::X86,
                binary_path: "bin/windows-x86/app.exe".to_string(),
                features: vec!["a".to_string(), "b,c".to_string()],
                optimizations: None,
                compatibility: vec!["nt6.1".to_string(), "pe".to_string()],
            },
            TargetEntry {
                platform: Platform::Unknown,
                arch: Arch::Unknown,
                binary_path: String::new(),
                features: Vec::new(),
                optimizations: Some("lto-fat".to_string()),
                compatibility: Vec::new(),
            },
        ],
        created_at: "2024-06-01T12:00:00+02:00".to_string(),
        install_token: "AbCd0123".to_string(),
        features: vec!["auto_update".to_string()],
        metadata: vec![
            ("update_url".to_string(), "https://example.invalid/updates".to_string()),
            ("k\"ey".to_string(), "v\\alue".to_string()),
        ],
    }
}

fn manifests_equal(a: &Manifest, b: &Manifest) -> bool {
    a.name == b.name && a.version == b.version && a.description == b.description
        && a.created_at == b.created_at && a.install_token == b.install_token && a.features
        == b.features && a.metadata == b.metadata && a.targets.len() == b.targets.len()
        && a.targets.iter().zip(b.targets.iter()).all(
        |(x, y)|
            x.platform == y.platform && x.arch == y.arch && x.binary_path == y.binary_path
                && x.features == y.features && x.optimizations == y.optimizations
                && x.compatibility == y.compatibility,
    )
}

#[test]
fn manifest_text_round_trip() {
    let m = awkward_manifest();
    let bytes = manifest_to_bytes(&m);
    let back = parse_manifest_bytes(&bytes).expect("own serialization must parse");
    assert!(manifests_equal(&m, &back));
}

#[test]
fn manifest_text_is_utf8_json_like() {
    let m = awkward_manifest();
    let bytes = manifest_to_bytes(&m);
    let text = String::from_utf8(bytes).expect("serialized manifest is UTF-8");
    assert!(text.starts_with("{\"name\":\""));
    assert!(text.ends_with("}"));
    assert!(text.contains("\"targets\":[{\"platform\":\"windows\",\"arch\":\"x86\""));
    assert!(text.contains("\"description\":\"quotes \\\" and \\\\ backslashes \\u0007\""));
}

#[test]
fn manifest_parse_rejects_garbage() {
    assert!(parse_manifest_bytes(b"{}").is_none());
    assert!(parse_manifest_bytes(b"").is_none());
    assert!(parse_manifest_bytes(b"[1,2,3]").is_none());
}

#[test]
fn auto_update_setup_records_url_and_feature() {
    let mut m = awkward_manifest();
    m.metadata.clear();
    m.features.clear();
    setup_auto_update("https://example.invalid/v2", &mut m);
    assert_eq!(update_url_of(&m).map(|s| s.clone()), Some(
        "https://example.invalid/v2".to_string(),
    ));
    assert_eq!(m.features, vec!["auto_update".to_string()]);
    // Setting the key again overwrites in place rather than appending.
    setup_auto_update("https://example.invalid/v3", &mut m);
    assert_eq!(m.metadata.len(), 1);
    assert_eq!(update_url_of(&m).map(|s| s.clone()), Some(
        "https://example.invalid/v3".to_string(),
    ));
}

#[test]
fn metadata_lookup_takes_first_match() {
    let mut m = awkward_manifest();
    m.metadata = vec![
        ("k".to_string(), "first".to_string()),
        ("k".to_string(), "second".to_string()),
    ];
    assert_eq!(metadata_get(&m, "k").map(|s| s.clone()), Some("first".to_string()));
    assert!(metadata_get(&m, "absent").is_none());
}

#[test]
fn manifest_with_empty_collections_round_trips() {
    let m = Manifest {
        name: String::new(),
        version: String::new(),
        description: None,
        targets: Vec::new(),
        created_at: String::new(),
        install_token: String::new(),
        features: Vec::new(),
        metadata: Vec::new(),
    };
    let bytes = manifest_to_bytes(&m);
    let back = parse_manifest_bytes(&bytes).expect("empty manifest still parses");
    assert_eq!(back.name, "");
    assert_eq!(back.targets.len(), 0);
    assert_eq!(back.metadata.len(), 0);
    let text = String::from_utf8(bytes).unwrap();
    assert_eq!(
        text,
        "{\"name\":\"\",\"version\":\"\",\"description\":null,\"targets\":[],\
\"created_at\":\"\",\"install_token\":\"\",\"features\":[],\"metadata\":{}}",
    );
}
