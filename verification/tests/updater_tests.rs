use rust_writer::updater::{
    download_url, is_newer, is_prerelease, parse_version, status_for_tag, status_from_release, trim_leading_v, UpdateChecker,
    UpdateStatus, CURRENT_VERSION,
};

#[test]
fn parses_version_numbers() {
    assert_eq!(parse_version("0.2.3"), (0, 2, 3));
    assert_eq!(parse_version("1.10"), (1, 10, 0));
    assert_eq!(parse_version(""), (0, 0, 0));
    assert_eq!(parse_version("1.x.2.3"), (1, 2, 3));
    assert_eq!(parse_version("4.+5.6"), (4, 5, 6));
    assert_eq!(parse_version("+4.5.6"), (4, 5, 6));
    assert_eq!(parse_version("1.+2.3"), (1, 2, 3));
    assert_eq!(parse_version("1.-2.3"), (1, 0, 0));
    assert_eq!(parse_version("4294967296.1"), (1, 0, 0));
    assert_eq!(parse_version("4294967295.1"), (4294967295, 1, 0));
    assert_eq!(parse_version("1.2.3-beta"), (1, 2, 3));
    assert_eq!(parse_version("1.0.0-rc.1"), (1, 0, 0));
    assert_eq!(parse_version("1.0.0+build.5"), (1, 0, 0));
    assert_eq!(parse_version("2.1-rc.1+build.7"), (2, 1, 0));
}

#[test]
fn detects_prerelease_suffix() {
    assert!(is_prerelease("1.0.0-rc.1"));
    assert!(is_prerelease("1.0.0-alpha+build"));
    assert!(!is_prerelease("1.0.0"));
    assert!(!is_prerelease("1.0.0+build-5"));
    assert!(!is_prerelease(""));
}

#[test]
fn prerelease_ranks_below_its_release() {
    assert!(!is_newer("1.0.0-rc.1", "1.0.0"));
    assert!(is_newer("1.0.0", "1.0.0-rc.1"));
    assert!(is_newer("1.0.1-rc.1", "1.0.0"));
    assert!(is_newer("1.0.0-rc.2", "1.0.0-rc.1"));
    assert!(!is_newer("1.0.0-rc.1", "1.0.0-rc.2"));
    assert!(!is_newer("1.0.0+build.2", "1.0.0"));
    assert!(!is_newer("1.0.0", "1.0.0+build.2"));
}

#[test]
fn newer_compares_lexicographically() {
    assert!(is_newer("0.2.4", "0.2.3"));
    assert!(is_newer("0.10.0", "0.9.9"));
    assert!(is_newer("1.0", "0.99.99"));
    assert!(!is_newer("0.2.3", "0.2.3"));
    assert!(!is_newer("0.2.2", "0.2.3"));
    assert!(!is_newer("1.0.0", "1"));
}

#[test]
fn trims_leading_v() {
    assert_eq!(trim_leading_v("v0.2.3"), "0.2.3");
    assert_eq!(trim_leading_v("vv1"), "1");
    assert_eq!(trim_leading_v("1.0v"), "1.0v");
}

#[test]
fn status_from_tag() {
    assert!(matches!(status_for_tag(None, "0.1.0"), UpdateStatus::Failed));
    assert!(matches!(status_for_tag(Some("v0.1.0"), "0.1.0"), UpdateStatus::UpToDate));
    match status_for_tag(Some("v0.2.0"), "0.1.0") {
        UpdateStatus::UpdateAvailable(v) => assert_eq!(v, "0.2.0"),
        _ => panic!("expected an update"),
    }
}

#[test]
fn status_from_release_json() {
    match status_from_release(r#"{"tag_name": "v99.0.0", "name": "big"}"#) {
        UpdateStatus::UpdateAvailable(v) => assert_eq!(v, "99.0.0"),
        _ => panic!("expected an update"),
    }
    assert!(matches!(status_from_release(r#"{"tag_name": "v0.0.1"}"#), UpdateStatus::UpToDate));
    assert!(matches!(status_from_release(r#"{"tag_name": 3}"#), UpdateStatus::Failed));
    assert!(matches!(status_from_release("not json"), UpdateStatus::Failed));
    assert_eq!(CURRENT_VERSION, "0.1.0");
}

#[test]
fn download_and_release_urls() {
    assert_eq!(
        download_url("1.2.3"),
        "https://github.com/falconshark/rust-writer/releases/download/v1.2.3/rustwriter"
    );
    assert_eq!(UpdateChecker::releases_url(), "https://github.com/falconshark/rust-writer/releases");
}

#[test]
fn checker_reports_what_the_thread_sends() {
    let (tx, rx) = std::sync::mpsc::channel();
    let checker = UpdateChecker::new(rx);
    assert!(checker.poll().is_none());
    tx.send(UpdateStatus::UpToDate).unwrap();
    assert!(matches!(checker.poll(), Some(UpdateStatus::UpToDate)));
}

#[test]
fn prereleases_follow_semver_precedence() {
    // The example chain of the semver specification, lowest first.
    let chain = [
        "1.0.0-alpha",
        "1.0.0-alpha.1",
        "1.0.0-alpha.beta",
        "1.0.0-beta",
        "1.0.0-beta.2",
        "1.0.0-beta.11",
        "1.0.0-rc.1",
        "1.0.0",
    ];
    for i in 0..chain.len() {
        for j in 0..chain.len() {
            assert_eq!(is_newer(chain[j], chain[i]), j > i, "{} vs {}", chain[j], chain[i]);
        }
    }
    assert!(is_newer("1.0.0-alpha.2", "1.0.0-alpha.1"));
    assert!(!is_newer("1.0.0-alpha.01", "1.0.0-alpha.1"));
    assert!(!is_newer("1.0.0-alpha.1", "1.0.0-alpha.01"));
    assert!(is_newer("1.0.0-alpha.10", "1.0.0-alpha.9"));
    assert!(is_newer("1.0.0-rc.1+build.1", "1.0.0-rc.0+build.9"));
    assert!(!is_newer("1.0.0-rc.1+b", "1.0.0-rc.1"));
    assert!(is_newer("1.0.1-alpha", "1.0.0"));
}
