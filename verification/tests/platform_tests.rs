//! Tests for platform data and mirror URL construction.

use ovc::{Platform, OC_BIN_DIR, OC_MIRROR_BASE};

#[test]
fn test_platform_constants() {
    // Linux x86_64
    assert_eq!(Platform::linux_x86_64().name, "linux-x86_64");
    assert_eq!(Platform::linux_x86_64().mirror_path, "x86_64");
    assert_eq!(Platform::linux_x86_64().binary_suffix, "linux");
    assert_eq!(Platform::linux_x86_64().file_extension, "tar.gz");

    // Linux ARM64
    assert_eq!(Platform::linux_arm64().name, "linux-arm64");
    assert_eq!(Platform::linux_arm64().mirror_path, "aarch64");
    assert_eq!(Platform::linux_arm64().binary_suffix, "linux");
    assert_eq!(Platform::linux_arm64().file_extension, "tar.gz");

    // macOS x86_64
    assert_eq!(Platform::mac_x86_64().name, "mac-x86_64");
    assert_eq!(Platform::mac_x86_64().mirror_path, "x86_64");
    assert_eq!(Platform::mac_x86_64().binary_suffix, "mac");
    assert_eq!(Platform::mac_x86_64().file_extension, "tar.gz");

    // macOS ARM64
    assert_eq!(Platform::mac_arm64().name, "mac-arm64");
    assert_eq!(Platform::mac_arm64().mirror_path, "x86_64");
    assert_eq!(Platform::mac_arm64().binary_suffix, "mac-arm64");
    assert_eq!(Platform::mac_arm64().file_extension, "tar.gz");
}

#[test]
fn test_platform_url_building() {
    let platform = Platform::linux_x86_64();

    let download_url = platform.build_download_url("4.1.0");
    assert!(download_url.contains("https://mirror.openshift.com"));
    assert!(download_url.contains("4.1.0"));
    assert!(download_url.contains("linux"));
    assert!(download_url.contains("tar.gz"));
    assert_eq!(
        download_url,
        "https://mirror.openshift.com/pub/openshift-v4/x86_64/clients/ocp/4.1.0/openshift-client-linux-4.1.0.tar.gz"
    );

    let versions_url = platform.build_versions_url();
    assert!(versions_url.contains("https://mirror.openshift.com"));
    assert!(versions_url.contains("clients/ocp"));
    assert_eq!(
        versions_url,
        "https://mirror.openshift.com/pub/openshift-v4/x86_64/clients/ocp/"
    );
}

#[test]
fn test_all_platforms_url_building() {
    let platforms = [
        Platform::linux_x86_64(),
        Platform::linux_arm64(),
        Platform::mac_x86_64(),
        Platform::mac_arm64(),
    ];

    for platform in &platforms {
        let download_url = platform.build_download_url("4.19.0");
        assert!(download_url.starts_with("https://mirror.openshift.com"));
        assert!(download_url.contains("4.19.0"));
        assert!(download_url.ends_with(".tar.gz"));

        let versions_url = platform.build_versions_url();
        assert!(versions_url.starts_with("https://mirror.openshift.com"));
        assert!(versions_url.ends_with("/clients/ocp/"));
    }
}

#[test]
fn test_constants_validity() {
    assert!(OC_MIRROR_BASE.starts_with("https://"));
    assert!(OC_MIRROR_BASE.contains("mirror.openshift.com"));
    assert_eq!(OC_MIRROR_BASE, "https://mirror.openshift.com/pub/openshift-v4");

    assert!(OC_BIN_DIR.contains("oc_bins"));
    assert!(OC_BIN_DIR.starts_with(".local"));
    assert_eq!(OC_BIN_DIR, ".local/bin/oc_bins");
}

#[test]
fn test_platform_debug_clone() {
    let platform = Platform::linux_x86_64();
    let cloned = platform.clone();

    assert_eq!(platform.name, cloned.name);
    assert_eq!(platform.mirror_path, cloned.mirror_path);
    assert_eq!(platform.binary_suffix, cloned.binary_suffix);
    assert_eq!(platform.file_extension, cloned.file_extension);

    // Debug output carries the type and the platform name
    let debug_str = format!("{:?}", platform);
    assert!(debug_str.contains("Platform"));
    assert!(debug_str.contains("linux-x86_64"));
}
