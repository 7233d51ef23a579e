//! Tests for the version cache: building, saving, loading, migration,
//! corruption handling, and age formatting.

use ovc::cache::{
    build_version_info, cache_age_seconds, format_cache_age, load_cached_versions,
    parse_version_listing, save_cached_versions, version_exists_in_cache, CacheLoadOutcome,
    CacheLookup, VersionCache, VersionInfo,
};

fn one_info(version: &str, platform: &str, url: &str) -> VersionInfo {
    VersionInfo {
        version: version.to_string(),
        urls: vec![(platform.to_string(), url.to_string())],
    }
}

#[test]
fn test_cache_round_trip() {
    let infos = vec![one_info("4.19.0", "linux-x86_64", "https://x")];
    let content = save_cached_versions(&infos);
    match load_cached_versions(Some(&content)) {
        CacheLoadOutcome::Valid(cache) => {
            assert_eq!(
                cache.get_download_url("4.19.0", "linux-x86_64"),
                Some("https://x".to_string())
            );
            assert_eq!(cache.get_version_strings(), vec!["4.19.0".to_string()]);
            assert!(cache.has_version("4.19.0"));
            assert!(!cache.has_version("4.18.0"));
        },
        _ => panic!("freshly saved cache failed to load"),
    }
}

#[test]
fn test_cache_round_trip_with_escapes() {
    // Characters that need JSON escaping survive a save/load cycle.
    let infos = vec![one_info("a\"b\\c", "linux-x86_64", "https://x/\ny")];
    let content = save_cached_versions(&infos);
    match load_cached_versions(Some(&content)) {
        CacheLoadOutcome::Valid(cache) => {
            assert_eq!(
                cache.get_download_url("a\"b\\c", "linux-x86_64"),
                Some("https://x/\ny".to_string())
            );
        },
        _ => panic!("cache with escaped characters failed to load"),
    }
}

#[test]
fn test_load_missing() {
    assert!(matches!(load_cached_versions(None), CacheLoadOutcome::Missing));
}

#[test]
fn test_load_corrupt_invalid_json() {
    // Invalid JSON reads as corrupt: the caller deletes the file and treats
    // the cache as absent, without an error.
    assert!(matches!(load_cached_versions(Some("not json {")), CacheLoadOutcome::Corrupt));
    assert!(matches!(load_cached_versions(Some("")), CacheLoadOutcome::Corrupt));
    assert!(matches!(load_cached_versions(Some("[1, 2")), CacheLoadOutcome::Corrupt));
}

#[test]
fn test_load_corrupt_wrong_shape() {
    assert!(matches!(load_cached_versions(Some("[]")), CacheLoadOutcome::Corrupt));
    assert!(matches!(load_cached_versions(Some("{}")), CacheLoadOutcome::Corrupt));
    assert!(matches!(
        load_cached_versions(Some("{\"versions\":[], \"timestamp\": 42}")),
        CacheLoadOutcome::Corrupt
    ));
    // A timestamp chrono cannot read makes the file corrupt too.
    assert!(matches!(
        load_cached_versions(Some("{\"versions\":[],\"timestamp\":\"garbage\"}")),
        CacheLoadOutcome::Corrupt
    ));
}

#[test]
fn test_legacy_migration() {
    let content = "{\"versions\":[\"4.19.0\"],\"timestamp\":\"2024-01-01T00:00:00Z\"}";
    match load_cached_versions(Some(content)) {
        CacheLoadOutcome::Migrated(cache, rewritten) => {
            assert_eq!(cache.get_version_strings(), vec!["4.19.0".to_string()]);
            // URLs are synthesized for the supported platform.
            let url = cache.get_download_url("4.19.0", "linux-x86_64").unwrap();
            assert_eq!(
                url,
                "https://mirror.openshift.com/pub/openshift-v4/x86_64/clients/ocp/4.19.0/openshift-client-linux-4.19.0.tar.gz"
            );
            // The original timestamp is kept.
            assert_eq!(cache.timestamp().as_str(), "2024-01-01T00:00:00Z");
            // The form written back carries the urls key and loads as the
            // current format.
            assert!(rewritten.contains("\"urls\""));
            match load_cached_versions(Some(&rewritten)) {
                CacheLoadOutcome::Valid(upgraded) => {
                    assert_eq!(upgraded.get_version_strings(), vec!["4.19.0".to_string()]);
                    assert_eq!(upgraded.timestamp().as_str(), "2024-01-01T00:00:00Z");
                },
                _ => panic!("rewritten cache failed to load as current format"),
            }
        },
        _ => panic!("legacy cache failed to migrate"),
    }
}

#[test]
fn test_legacy_migration_pretty_printed() {
    // A legacy file as a pretty printer laid it out.
    let content = "{\n  \"versions\": [\n    \"4.18.2\",\n    \"4.19.0\"\n  ],\n  \"timestamp\": \"2024-01-01T00:00:00+00:00\"\n}";
    match load_cached_versions(Some(content)) {
        CacheLoadOutcome::Migrated(cache, _) => {
            assert_eq!(
                cache.get_version_strings(),
                vec!["4.18.2".to_string(), "4.19.0".to_string()]
            );
        },
        _ => panic!("pretty-printed legacy cache failed to migrate"),
    }
}

#[test]
fn test_load_current_format_any_field_order() {
    let content = "{\"timestamp\":\"2024-01-01T00:00:00Z\",\"versions\":[{\"urls\":{\"linux-x86_64\":\"https://x\"},\"version\":\"4.19.0\"}]}";
    match load_cached_versions(Some(content)) {
        CacheLoadOutcome::Valid(cache) => {
            assert_eq!(
                cache.get_download_url("4.19.0", "linux-x86_64"),
                Some("https://x".to_string())
            );
        },
        _ => panic!("current-format cache with reordered fields failed to load"),
    }
}

#[test]
fn test_load_with_unicode_escapes() {
    // The escaped pair decodes to one character beyond the basic plane.
    let content = "{\"versions\":[{\"version\":\"4.19.0\",\"urls\":{\"linux-x86_64\":\"https:\\u002F\\u002Fx\\uD83D\\uDE00\"}}],\"timestamp\":\"2024-01-01T00:00:00Z\"}";
    match load_cached_versions(Some(content)) {
        CacheLoadOutcome::Valid(cache) => {
            assert_eq!(
                cache.get_download_url("4.19.0", "linux-x86_64"),
                Some("https://x\u{1F600}".to_string())
            );
        },
        _ => panic!("cache with unicode escapes failed to load"),
    }
}

#[test]
fn test_build_version_info_urls() {
    let versions = vec!["4.19.0".to_string()];
    let infos = build_version_info(&versions);
    assert_eq!(infos.len(), 1);
    assert_eq!(infos[0].version, "4.19.0");
    assert_eq!(infos[0].urls.len(), 1);
    assert_eq!(infos[0].urls[0].0, "linux-x86_64");
    assert_eq!(
        infos[0].urls[0].1,
        "https://mirror.openshift.com/pub/openshift-v4/x86_64/clients/ocp/4.19.0/openshift-client-linux-4.19.0.tar.gz"
    );
}

#[test]
fn test_format_cache_age() {
    assert!(format_cache_age(7200).ends_with("h ago"));
    assert_eq!(format_cache_age(7200), "2h ago");
    assert!(format_cache_age(300).ends_with("m ago"));
    assert_eq!(format_cache_age(300), "5m ago");
    assert_eq!(format_cache_age(3600), "1h ago");
    assert_eq!(format_cache_age(3599), "59m ago");
    assert_eq!(format_cache_age(59), "59s ago");
    assert_eq!(format_cache_age(0), "0s ago");
    // Clock skew clamps at zero rather than going negative.
    assert_eq!(format_cache_age(-100), "0s ago");
}

#[test]
fn test_cache_age_seconds() {
    assert!(cache_age_seconds("2024-01-01T00:00:00Z").is_some());
    assert!(cache_age_seconds("not a timestamp").is_none());
}

#[test]
fn test_version_exists_in_cache_decisions() {
    let infos = vec![one_info("4.19.0", "linux-x86_64", "https://x")];
    let cache = VersionCache::new(infos, "2024-01-01T00:00:00Z".to_string());

    // A hit answers at once.
    assert_eq!(
        version_exists_in_cache(Some(&cache), "4.19.0", "linux-x86_64", true),
        CacheLookup::Known(true)
    );
    // A miss without refresh answers "absent".
    assert_eq!(
        version_exists_in_cache(Some(&cache), "4.20.0", "linux-x86_64", false),
        CacheLookup::Known(false)
    );
    // A miss with refresh asks for one.
    assert_eq!(
        version_exists_in_cache(Some(&cache), "4.20.0", "linux-x86_64", true),
        CacheLookup::RefreshNeeded
    );
    // A version present under another platform name only is still a miss.
    assert_eq!(
        version_exists_in_cache(Some(&cache), "4.19.0", "mac-arm64", false),
        CacheLookup::Known(false)
    );
    // Without a loaded cache there is no answer.
    assert_eq!(
        version_exists_in_cache(None, "4.19.0", "linux-x86_64", true),
        CacheLookup::Unavailable
    );
}

#[test]
fn test_parse_version_listing() {
    let body = "<a href=\"4.18.0/\">4.18.0/</a>\n<a href=\"4.19.0/\">4.19.0/</a>\r\n<a href=\"latest/\">latest/</a>\n<a href=\"4.19.0.txt\">4.19.0.txt</a>\nno quotes here\n";
    let versions = parse_version_listing(body);
    assert_eq!(versions, vec!["4.18.0".to_string(), "4.19.0".to_string()]);
}

#[test]
fn test_parse_version_listing_trims_all_slashes() {
    let body = "<a href=\"4.19.0//\">x</a>";
    let versions = parse_version_listing(body);
    assert_eq!(versions, vec!["4.19.0".to_string()]);
}

#[test]
fn test_parse_version_listing_empty() {
    let versions = parse_version_listing("");
    assert!(versions.is_empty());
}

#[test]
fn test_load_rejects_overdeep_nesting() {
    // A file nested beyond the reader's depth bound is treated as corrupt.
    let mut content = String::new();
    for _ in 0..200 {
        content.push('[');
    }
    for _ in 0..200 {
        content.push(']');
    }
    assert!(matches!(load_cached_versions(Some(&content)), CacheLoadOutcome::Corrupt));
}

#[test]
fn test_load_current_format_pretty_printed() {
    // The current format as a pretty printer lays it out.
    let content = "{\n  \"versions\": [\n    {\n      \"version\": \"4.19.0\",\n      \"urls\": {\n        \"linux-x86_64\": \"https://x\"\n      }\n    }\n  ],\n  \"timestamp\": \"2024-01-01T00:00:00Z\"\n}";
    match load_cached_versions(Some(content)) {
        CacheLoadOutcome::Valid(cache) => {
            assert_eq!(
                cache.get_download_url("4.19.0", "linux-x86_64"),
                Some("https://x".to_string())
            );
            assert!(cache.has_version("4.19.0"));
        },
        _ => panic!("pretty-printed current-format cache failed to load"),
    }
}
