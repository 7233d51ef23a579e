//! Tests for version comparison, extraction, stability, and matching.

use ovc::{
    compare_versions, extract_major_minor, extract_version_from_path, extract_version_number,
    find_matching_version, is_stable_version,
};
use std::path::PathBuf;

#[test]
fn test_compare_versions_basic() {
    assert_eq!(compare_versions("4.1.0", "4.2.0"), std::cmp::Ordering::Less);
    assert_eq!(compare_versions("4.10.0", "4.2.0"), std::cmp::Ordering::Greater);
    assert_eq!(compare_versions("4.1.0", "4.1.0"), std::cmp::Ordering::Equal);
}

#[test]
fn test_compare_versions_prerelease() {
    assert_eq!(compare_versions("4.19.0-rc.1", "4.19.0"), std::cmp::Ordering::Less);
    assert_eq!(compare_versions("4.19.0", "4.19.0-rc.1"), std::cmp::Ordering::Greater);
    assert_eq!(compare_versions("4.19.0-rc.1", "4.19.0-rc.2"), std::cmp::Ordering::Less);
    // String comparison for rc.10 vs rc.2 - "rc.10" < "rc.2" lexicographically
    assert_eq!(compare_versions("4.19.0-rc.10", "4.19.0-rc.2"), std::cmp::Ordering::Less);
}

#[test]
fn test_compare_versions_patch() {
    assert_eq!(compare_versions("4.1.1", "4.1.10"), std::cmp::Ordering::Less);
    assert_eq!(compare_versions("4.1.15", "4.1.5"), std::cmp::Ordering::Greater);
    assert_eq!(compare_versions("4.1.0", "4.1.0.1"), std::cmp::Ordering::Less);
}

#[test]
fn test_compare_versions_complex() {
    assert_eq!(compare_versions("4.19.0-alpha.1", "4.19.0-beta.1"), std::cmp::Ordering::Less);
    assert_eq!(compare_versions("4.19.0-beta.1", "4.19.0-rc.1"), std::cmp::Ordering::Less);
    assert_eq!(compare_versions("4.19.0-rc.1", "4.19.0"), std::cmp::Ordering::Less);
}

#[test]
fn test_compare_versions_eus_suffix() {
    assert_eq!(compare_versions("4.19.0 EUS", "4.19.0"), std::cmp::Ordering::Greater);
    assert_eq!(compare_versions("4.19.0", "4.19.0 EUS"), std::cmp::Ordering::Less);
}

#[test]
fn test_compare_versions_edge_cases() {
    assert_eq!(compare_versions("", ""), std::cmp::Ordering::Equal);
    assert_eq!(compare_versions("1", "1"), std::cmp::Ordering::Equal);
    assert_eq!(compare_versions("1.0", "1"), std::cmp::Ordering::Greater);
    // String comparison for invalid versions - "invalid.version" > "another.invalid"
    assert_eq!(
        compare_versions("invalid.version", "another.invalid"),
        std::cmp::Ordering::Greater
    );
}

#[test]
fn test_version_comparison_with_unusual_formats() {
    assert_eq!(compare_versions("4.1.0.0", "4.1.0"), std::cmp::Ordering::Greater);
    assert_eq!(compare_versions("4.1", "4.1.0"), std::cmp::Ordering::Less);
    assert_eq!(compare_versions("4.1.0-rc.1.2", "4.1.0-rc.1.1"), std::cmp::Ordering::Greater);
}

#[test]
fn test_extract_major_minor_valid() {
    assert_eq!(extract_major_minor("4.1.0"), Some("4.1".to_string()));
    assert_eq!(extract_major_minor("4.10.15"), Some("4.10".to_string()));
    assert_eq!(extract_major_minor("4.1"), Some("4.1".to_string()));
    assert_eq!(extract_major_minor("4.1.0-rc.1"), Some("4.1".to_string()));
    assert_eq!(extract_major_minor("10.20.30"), Some("10.20".to_string()));
}

#[test]
fn test_extract_major_minor_invalid() {
    assert_eq!(extract_major_minor("4"), None);
    assert_eq!(extract_major_minor("invalid"), None);
    assert_eq!(extract_major_minor(""), None);
    assert_eq!(extract_major_minor("."), None);
    assert_eq!(extract_major_minor("4."), None);
    assert_eq!(extract_major_minor(".1"), None);
}

#[test]
fn test_extract_major_minor_with_many_parts() {
    assert_eq!(extract_major_minor("1.2.3.4.5.6"), Some("1.2".to_string()));
    assert_eq!(extract_major_minor("4.19.0.1.2.3-rc.1"), Some("4.19".to_string()));
}

#[test]
fn test_extract_version_number_valid() {
    assert_eq!(extract_version_number("4.1.0"), "4.1.0");
    assert_eq!(extract_version_number("4.1.0-dirty"), "4.1.0");
    assert_eq!(extract_version_number("version: 4.19.0"), "");
    assert_eq!(extract_version_number("4.19.0 (build info)"), "4.19.0");
}

#[test]
fn test_extract_version_number_edge_cases() {
    assert_eq!(extract_version_number("v4.1.0"), "");
    assert_eq!(extract_version_number("openshift-4.1.0"), "");
    assert_eq!(extract_version_number("no-version-here"), "");
    assert_eq!(extract_version_number(""), "");
    assert_eq!(extract_version_number("123"), "123");
    assert_eq!(extract_version_number("1.2.3.4.5"), "1.2.3.4.5");
}

#[test]
fn test_extract_version_number_with_special_characters() {
    assert_eq!(extract_version_number("version=4.19.0"), "");
    assert_eq!(extract_version_number("v:4.19.0"), "");
    assert_eq!(extract_version_number("4.19.0+build.123"), "4.19.0");
    assert_eq!(extract_version_number("4.19.0~snapshot"), "4.19.0");
}

#[test]
fn test_extract_version_from_path_valid() {
    let path = PathBuf::from("/path/to/oc-4.1.0");
    assert_eq!(extract_version_from_path(&path), "4.1.0");

    let path = PathBuf::from("oc-4.10.15");
    assert_eq!(extract_version_from_path(&path), "4.10.15");

    let path = PathBuf::from("/home/user/.local/bin/oc_bins/linux-x86_64/oc-4.19.0-rc.1");
    assert_eq!(extract_version_from_path(&path), "4.19.0-rc.1");
}

#[test]
fn test_extract_version_from_path_invalid() {
    let path = PathBuf::from("/invalid/path");
    assert_eq!(extract_version_from_path(&path), "unknown");

    let path = PathBuf::from("notoc-4.1.0");
    assert_eq!(extract_version_from_path(&path), "unknown");

    let path = PathBuf::from("oc-");
    assert_eq!(extract_version_from_path(&path), "");

    let path = PathBuf::from("");
    assert_eq!(extract_version_from_path(&path), "unknown");
}

#[test]
fn test_is_stable_version_stable() {
    assert!(is_stable_version("4.1.0"));
    assert!(is_stable_version("4.10.15"));
    assert!(is_stable_version("1.0.0"));
    assert!(is_stable_version("4.19.0.1"));
    assert!(is_stable_version("4.19.0-hotfix"));
    assert!(is_stable_version("4.19.0-patch"));
}

#[test]
fn test_is_stable_version_unstable() {
    assert!(!is_stable_version("4.1.0-rc.1"));
    assert!(!is_stable_version("4.1.0-alpha.1"));
    assert!(!is_stable_version("4.1.0-beta.1"));
    assert!(!is_stable_version("4.1.0-nightly"));
    assert!(!is_stable_version("4.1.0-dev"));
    assert!(!is_stable_version("4.1.0-snapshot"));
}

#[test]
fn test_is_stable_version_case_insensitive() {
    assert!(!is_stable_version("4.1.0-RC.1"));
    assert!(!is_stable_version("4.1.0-ALPHA.1"));
    assert!(!is_stable_version("4.1.0-Beta.1"));
    assert!(!is_stable_version("4.1.0-NIGHTLY"));
    assert!(!is_stable_version("4.1.0-Dev"));
    assert!(!is_stable_version("4.1.0-SNAPSHOT"));
}

#[test]
fn test_is_stable_version_edge_cases() {
    assert!(is_stable_version(""));
    assert!(is_stable_version("stable"));
    assert!(is_stable_version("4.19.0-release"));
    assert!(is_stable_version("4.19.0-final"));
}

#[test]
fn test_is_stable_version_with_mixed_case_and_spaces() {
    // The function only checks for exact substrings, not spaced versions
    assert!(is_stable_version("4.19.0 - RC 1")); // doesn't contain "-rc" exactly
    assert!(!is_stable_version("4.19.0-Alpha-1")); // contains "-alpha" (case insensitive)
    assert!(is_stable_version("4.19.0_beta_1")); // doesn't contain "-beta" exactly
    assert!(is_stable_version("4.19.0-release-candidate")); // doesn't contain exact keywords
}

#[test]
fn test_find_matching_version_exact_match() {
    let available = vec![
        "4.1.0".to_string(),
        "4.1.1".to_string(),
        "4.1.2".to_string(),
        "4.2.0".to_string(),
        "4.2.1".to_string(),
    ];

    assert_eq!(find_matching_version("4.1.1", &available), Some("4.1.1".to_string()));
    assert_eq!(find_matching_version("4.2.0", &available), Some("4.2.0".to_string()));
}

#[test]
fn test_find_matching_version_partial_match() {
    let available = vec![
        "4.1.0".to_string(),
        "4.1.1".to_string(),
        "4.1.2".to_string(),
        "4.2.0".to_string(),
        "4.2.1".to_string(),
    ];

    // Should find latest in series
    assert_eq!(find_matching_version("4.1.5", &available), Some("4.1.2".to_string()));
    assert_eq!(find_matching_version("4.2.5", &available), Some("4.2.1".to_string()));
}

#[test]
fn test_find_matching_version_no_match() {
    let available = vec!["4.1.0".to_string(), "4.1.1".to_string(), "4.2.0".to_string()];

    assert_eq!(find_matching_version("4.3.0", &available), None);
    assert_eq!(find_matching_version("5.1.0", &available), None);
}

#[test]
fn test_find_matching_version_invalid_input() {
    let available = vec!["4.1.0".to_string(), "4.2.0".to_string()];

    assert_eq!(find_matching_version("invalid", &available), None);
    assert_eq!(find_matching_version("4", &available), None);
    assert_eq!(find_matching_version("", &available), None);
}

#[test]
fn test_find_matching_version_empty_available() {
    let available: Vec<String> = vec![];
    assert_eq!(find_matching_version("4.1.0", &available), None);
}

#[test]
fn test_find_matching_version_prerelease() {
    let available = vec![
        "4.19.0-rc.1".to_string(),
        "4.19.0-rc.2".to_string(),
        "4.19.0".to_string(),
        "4.19.1".to_string(),
    ];

    assert_eq!(
        find_matching_version("4.19.0-rc.1", &available),
        Some("4.19.0-rc.1".to_string())
    );
    assert_eq!(find_matching_version("4.19.5", &available), Some("4.19.1".to_string()));
}

#[test]
fn test_find_matching_version_sorting() {
    let available = vec![
        "4.1.10".to_string(),
        "4.1.2".to_string(),
        "4.1.1".to_string(),
        "4.1.20".to_string(),
    ];

    // Should return the latest (4.1.20) when looking for 4.1.x
    assert_eq!(find_matching_version("4.1.15", &available), Some("4.1.20".to_string()));
}

#[test]
fn test_find_matching_version_with_complex_versions() {
    let available = vec![
        "4.19.0-alpha.1".to_string(),
        "4.19.0-beta.1".to_string(),
        "4.19.0-rc.1".to_string(),
        "4.19.0".to_string(),
        "4.19.1-rc.1".to_string(),
        "4.19.1".to_string(),
    ];

    // Should find latest stable in the 4.19 series
    assert_eq!(find_matching_version("4.19.5", &available), Some("4.19.1".to_string()));
}

#[test]
fn test_find_matching_version_latest_patch_in_series() {
    let available = vec!["4.19.0".to_string(), "4.19.1".to_string(), "4.20.0".to_string()];
    assert_eq!(find_matching_version("4.19", &available), Some("4.19.1".to_string()));
}

#[test]
fn test_find_matching_version_exact_beats_newer() {
    let available = vec!["4.19.0".to_string(), "4.19.1".to_string()];
    assert_eq!(find_matching_version("4.19.0", &available), Some("4.19.0".to_string()));
}

#[test]
fn test_compare_versions_antisymmetric_pairs() {
    let pairs = [
        ("4.1.0", "4.2.0"),
        ("4.19.0-rc.1", "4.19.0"),
        ("4.19.0-rc.10", "4.19.0-rc.2"),
        ("4.1.0", "4.1.0.1"),
        ("4.19.0 EUS", "4.19.0"),
        ("", "0"),
        ("4.1.0", "4.1.0"),
    ];
    for (a, b) in pairs {
        assert_eq!(compare_versions(a, b), compare_versions(b, a).reverse());
    }
}
