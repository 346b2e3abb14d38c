use wrath::update::{
    check_for_update, github_repo, is_newer, latest_release_url, update_message,
};

#[test]
fn test_is_newer_major() {
    assert!(is_newer("2.0.0", "1.0.0"));
}

#[test]
fn test_is_newer_minor() {
    assert!(is_newer("1.1.0", "1.0.0"));
}

#[test]
fn test_is_newer_patch() {
    assert!(is_newer("1.0.1", "1.0.0"));
}

#[test]
fn test_is_not_newer_same() {
    assert!(!is_newer("1.0.0", "1.0.0"));
}

#[test]
fn test_is_not_newer_older() {
    assert!(!is_newer("1.0.0", "2.0.0"));
}

#[test]
fn test_is_newer_different_lengths() {
    assert!(is_newer("1.0.1", "1.0"));
}

#[test]
fn test_is_not_newer_different_lengths_equal() {
    assert!(!is_newer("1.0", "1.0.0"));
}

#[test]
fn test_is_newer_with_v_prefix_stripped() {
    // The caller should strip 'v' prefix before calling
    assert!(is_newer("0.2.0", "0.1.0"));
}

#[test]
fn test_update_message_format() {
    let msg = update_message("0.1.0", "0.2.0");
    assert!(msg.contains("0.1.0"));
    assert!(msg.contains("0.2.0"));
    assert!(msg.contains("Update available"));
    assert!(msg.contains(github_repo()));
}

#[test]
fn test_is_newer_empty_strings() {
    assert!(!is_newer("", ""));
}

#[test]
fn test_is_newer_invalid_versions() {
    assert!(!is_newer("abc", "def"));
}

#[test]
fn test_is_newer_mixed_valid_invalid() {
    // "1.abc" parses as [1], "0.1" parses as [0, 1]
    // Comparing: 1 > 0, so latest is newer
    assert!(is_newer("1.abc", "0.1"));
}

#[test]
fn test_check_for_update_strips_v_prefix() {
    // This tests the prefix stripping logic without making network calls
    let latest = "v1.2.3";
    let current = "v1.2.2";
    let latest_clean = latest.strip_prefix('v').unwrap_or(latest);
    let current_clean = current.strip_prefix('v').unwrap_or(current);
    assert!(is_newer(latest_clean, current_clean));
}

#[test]
fn check_for_update_announces_only_newer_releases() {
    assert_eq!(
        check_for_update("v1.2.2", Ok("v1.2.3".to_string())),
        Some("1.2.3".to_string())
    );
    assert_eq!(check_for_update("1.2.3", Ok("v1.2.3".to_string())), None);
    assert_eq!(check_for_update("1.3.0", Ok("1.2.9".to_string())), None);
    assert_eq!(
        check_for_update("0.1.0", Err("HTTP request failed".to_string())),
        None
    );
    // Only one leading "v" is dropped: "v0" is then no number, which leaves [2, 0].
    assert_eq!(
        check_for_update("0.1.0", Ok("vv0.2.0".to_string())),
        Some("v0.2.0".to_string())
    );
}

#[test]
fn update_message_is_exact() {
    assert_eq!(
        update_message("0.1.0", "0.2.0"),
        "\n[i] Update available: 0.1.0 -> 0.2.0\n    Run the install script again to update, or visit:\n    https://github.com/AymericChaverot/wrath/releases/latest\n"
    );
    assert_eq!(
        latest_release_url(),
        "https://api.github.com/repos/AymericChaverot/wrath/releases/latest"
    );
}

#[test]
fn is_newer_is_an_order_on_examples() {
    let versions = ["0.9", "1.0", "1.0.0", "1.0.1", "1.10", "1.2", "2", "x.3", "+4", "4294967296.1"];
    for a in versions {
        assert!(!is_newer(a, a));
        for b in versions {
            assert!(!(is_newer(a, b) && is_newer(b, a)), "{a} {b}");
            for c in versions {
                if is_newer(a, b) && is_newer(b, c) {
                    assert!(is_newer(a, c), "{a} {b} {c}");
                }
            }
        }
    }
    assert!(is_newer("1.10", "1.2"));
    assert!(is_newer("+4", "3.9"));
    // A component too large for 32 bits is left out: [1] against [0, 2].
    assert!(is_newer("4294967296.1", "0.2"));
}
