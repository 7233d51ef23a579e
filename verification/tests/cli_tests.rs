//! Tests for command-line data decisions and version resolution helpers.

use ovc::cli::{parse_completion_shell, Cli, StandaloneAction};
use ovc::version::{
    filter_versions_by_prefix, get_latest_version, has_major_minor, resolve_version,
    sort_versions, version_from_file_name,
};

fn cli_with_flags(match_server: bool, update: bool) -> Cli {
    Cli {
        target_version: None,
        list: None,
        installed: None,
        prune: None,
        match_server,
        update,
        insecure: false,
        verbose: false,
        completion: None,
    }
}

#[test]
fn test_standalone_action() {
    assert_eq!(cli_with_flags(false, false).standalone_action(), None);
    assert_eq!(
        cli_with_flags(true, false).standalone_action(),
        Some(StandaloneAction::MatchServer)
    );
    assert_eq!(cli_with_flags(false, true).standalone_action(), Some(StandaloneAction::Update));
    // The server match takes precedence.
    assert_eq!(
        cli_with_flags(true, true).standalone_action(),
        Some(StandaloneAction::MatchServer)
    );
}

#[test]
fn test_parse_completion_shell() {
    assert_eq!(parse_completion_shell("bash"), Ok("bash".to_string()));
    assert_eq!(parse_completion_shell("BASH"), Ok("bash".to_string()));
    assert_eq!(
        parse_completion_shell("zsh"),
        Err("unsupported shell: zsh (only 'bash' is supported)".to_string())
    );
}

#[test]
fn test_resolve_version_full_version_passes_through() {
    let available = vec!["4.19.0".to_string()];
    assert_eq!(resolve_version("4.17.15", &available), Ok("4.17.15".to_string()));
}

#[test]
fn test_resolve_version_partial_resolves_to_latest_patch() {
    let available = vec!["4.19.0".to_string(), "4.19.1".to_string(), "4.20.0".to_string()];
    assert_eq!(resolve_version("4.19", &available), Ok("4.19.1".to_string()));
}

#[test]
fn test_resolve_version_rejects_bare_major() {
    let available = vec!["4.19.0".to_string()];
    assert_eq!(
        resolve_version("4", &available),
        Err("Version must include at least major and minor version (e.g., 4.19)".to_string())
    );
}

#[test]
fn test_resolve_version_no_match() {
    let available = vec!["4.19.0".to_string()];
    assert_eq!(
        resolve_version("4.21", &available),
        Err("No versions found matching 4.21".to_string())
    );
}

#[test]
fn test_get_latest_version_skips_prereleases() {
    let available = vec![
        "4.18.0".to_string(),
        "4.19.0-rc.1".to_string(),
        "4.19.0".to_string(),
        "4.19.1-rc.1".to_string(),
    ];
    assert_eq!(get_latest_version(&available), Ok("4.19.0".to_string()));
}

#[test]
fn test_get_latest_version_none_stable() {
    let available = vec!["4.19.0-rc.1".to_string()];
    assert_eq!(get_latest_version(&available), Err("No stable versions found".to_string()));
}

#[test]
fn test_has_major_minor() {
    assert!(has_major_minor("4.19"));
    assert!(has_major_minor("4.19.0"));
    assert!(!has_major_minor("4"));
    assert!(!has_major_minor(""));
}

#[test]
fn test_filter_versions_by_prefix() {
    let versions = vec![
        "4.19.0".to_string(),
        "4.19.1".to_string(),
        "4.20.0".to_string(),
        "4.190.0".to_string(),
    ];
    // A plain prefix test: "4.19" also matches "4.190.0".
    assert_eq!(
        filter_versions_by_prefix(&versions, "4.19"),
        vec![
            "4.19.0".to_string(),
            "4.19.1".to_string(),
            "4.190.0".to_string(),
        ]
    );
    assert!(filter_versions_by_prefix(&versions, "5.0").is_empty());
}

#[test]
fn test_sort_versions_order() {
    let versions = vec![
        "4.1.10".to_string(),
        "4.1.2".to_string(),
        "4.19.0-rc.1".to_string(),
        "4.19.0".to_string(),
        "4.1.1".to_string(),
    ];
    let sorted = sort_versions(versions);
    assert_eq!(
        sorted,
        vec![
            "4.1.1".to_string(),
            "4.1.2".to_string(),
            "4.1.10".to_string(),
            "4.19.0-rc.1".to_string(),
            "4.19.0".to_string(),
        ]
    );
}

#[test]
fn test_version_from_file_name() {
    assert_eq!(version_from_file_name("oc-4.19.0"), "4.19.0");
    assert_eq!(version_from_file_name("oc-"), "");
    assert_eq!(version_from_file_name("kubectl"), "unknown");
}
