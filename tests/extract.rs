use indexmap::IndexMap;
use windows_sdk::extract::{archive_output_path, classify_payload, plan_package, staged_path, ExtractionKind};
use windows_sdk::model::{Package, PackageType, Payload};

fn payload(name: &str) -> Payload {
    Payload {
        file_name: name.to_string(),
        sha256: [0xab; 32],
        size: 7,
        url: url::Url::parse("https://example.com/x").unwrap(),
    }
}

#[test]
fn suffix_decides_regardless_of_type() {
    for ty in [PackageType::Vsix, PackageType::Exe, PackageType::Msi, PackageType::Group] {
        assert_eq!(classify_payload("Installers\\X.msi", ty), Some(ExtractionKind::Msi));
        assert_eq!(classify_payload("X.vsix", ty), Some(ExtractionKind::Vsix));
    }
}

#[test]
fn other_suffix_is_left_alone() {
    assert_eq!(classify_payload("setup.exe", PackageType::Exe), None);
    assert_eq!(classify_payload("data.cab", PackageType::Component), None);
    assert_eq!(classify_payload("X.MSI", PackageType::Group), None);
    assert_eq!(classify_payload("", PackageType::Zip), None);
}

#[test]
fn package_type_decides_otherwise() {
    assert_eq!(classify_payload("payload.bin", PackageType::Msi), Some(ExtractionKind::Msi));
    assert_eq!(classify_payload("payload.zip", PackageType::Vsix), Some(ExtractionKind::Vsix));
}

#[test]
fn staged_path_uses_forward_slashes() {
    assert_eq!(staged_path(&payload("Installers\\Kits\\a.msi")), "Installers/Kits/a.msi");
    assert_eq!(staged_path(&payload("plain.cab")), "plain.cab");
}

#[test]
fn package_plan_covers_each_payload() {
    let pkg = Package {
        id: "Win.SDK".to_string(),
        version: "10".to_string(),
        ty: PackageType::Msi,
        dependencies: IndexMap::new(),
        payloads: vec![payload("Installers\\a.msi"), payload("Installers\\a1.cab")],
    };
    let plan = plan_package(&pkg);
    assert_eq!(plan.len(), 2);
    assert_eq!(plan[0].path, "Installers/a.msi");
    assert_eq!(plan[0].kind, Some(ExtractionKind::Msi));
    assert_eq!(plan[1].path, "Installers/a1.cab");
    assert_eq!(plan[1].kind, Some(ExtractionKind::Msi));
    assert_eq!(plan[0].cache_name, "ab".repeat(32));
}

#[test]
fn only_contents_of_an_archive_are_kept() {
    assert_eq!(archive_output_path("Contents/VC/Tools/a.h"), Some("VC/Tools/a.h".to_string()));
    assert_eq!(archive_output_path("extension.vsixmanifest"), None);
    assert_eq!(archive_output_path("Contents/"), None);
    assert_eq!(archive_output_path("contents/x.h"), None);
    assert_eq!(archive_output_path("[Content_Types].xml"), None);
}
