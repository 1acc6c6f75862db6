use wasmedgeup::releases::{
    latest_release_from_refs, remote_head_to_version, select_releases, versions_from_refs,
    ReleasesFilter,
};
use wasmedgeup::version::{check_prerelease, Version};
use wasmedgeup::Error;

fn ver(major: u64, minor: u64, patch: u64) -> Version {
    Version::new(major, minor, patch)
}

fn ver_pre(major: u64, minor: u64, patch: u64, pre: &[u8]) -> Version {
    Version::with_prerelease(major, minor, patch, pre.to_vec()).unwrap()
}

#[test]
fn compares_numeric_triples() {
    assert!(ver(0, 13, 5).lt(&ver(0, 14, 0)));
    assert!(ver(0, 14, 0).lt(&ver(0, 14, 1)));
    assert!(ver(0, 14, 1).lt(&ver(1, 0, 0)));
    assert!(!ver(1, 0, 0).lt(&ver(0, 14, 1)));
    assert!(ver(0, 14, 1).eq_version(&ver(0, 14, 1)));
}

#[test]
fn stable_outranks_prerelease_of_same_triple() {
    let stable = ver(0, 14, 1);
    let rc = ver_pre(0, 14, 1, b"rc.2");
    assert!(rc.lt(&stable));
    assert!(!stable.lt(&rc));
    assert!(!rc.eq_version(&stable));
}

#[test]
fn prerelease_precedence_follows_semver() {
    // The canonical semver ordering chain.
    let chain = [
        ver_pre(1, 0, 0, b"alpha"),
        ver_pre(1, 0, 0, b"alpha.1"),
        ver_pre(1, 0, 0, b"alpha.beta"),
        ver_pre(1, 0, 0, b"beta"),
        ver_pre(1, 0, 0, b"beta.2"),
        ver_pre(1, 0, 0, b"beta.11"),
        ver_pre(1, 0, 0, b"rc.1"),
        ver(1, 0, 0),
    ];
    for w in chain.windows(2) {
        assert!(w[0].lt(&w[1]), "expected strictly below");
        assert!(!w[1].lt(&w[0]));
    }
}

#[test]
fn renders_canonical_text() {
    assert_eq!(ver(0, 14, 1).to_version_string(), "0.14.1");
    assert_eq!(ver_pre(0, 15, 0, b"alpha.1").to_version_string(), "0.15.0-alpha.1");
    assert_eq!(ver(10, 200, 3001).to_version_string(), "10.200.3001");
}

#[test]
fn rejects_malformed_prerelease_labels() {
    assert!(check_prerelease(&b"alpha.1".to_vec()));
    assert!(check_prerelease(&b"rc-1.0".to_vec()));
    assert!(!check_prerelease(&b".".to_vec()));
    assert!(!check_prerelease(&b"alpha..1".to_vec()));
    assert!(!check_prerelease(&b"alpha.01".to_vec()));
    assert!(!check_prerelease(&b"al pha".to_vec()));
    assert!(Version::with_prerelease(1, 0, 0, b"alpha.01".to_vec()).is_none());
}

#[test]
fn parses_tag_references() {
    let v = remote_head_to_version("refs/tags/0.14.1").unwrap();
    assert_eq!((v.major, v.minor, v.patch), (0, 14, 1));
    assert!(v.pre.is_empty());

    let v = remote_head_to_version("refs/tags/0.15.0-alpha.1").unwrap();
    assert_eq!((v.major, v.minor, v.patch), (0, 15, 0));
    assert_eq!(v.pre, b"alpha.1".to_vec());

    // Dereference markers and non-tag references are skipped.
    assert!(remote_head_to_version("refs/tags/0.14.1^{}").is_none());
    assert!(remote_head_to_version("refs/heads/master").is_none());
    assert!(remote_head_to_version("refs/tags/not-a-version").is_none());
}

fn fixture_refs() -> Vec<String> {
    [
        "refs/tags/0.14.0",
        "refs/tags/0.15.0-alpha.1",
        "refs/tags/0.14.1^{}",
        "refs/tags/0.14.1",
        "refs/heads/master",
        "refs/tags/0.14.1-rc.2",
        "refs/tags/0.13.5",
    ]
    .iter()
    .map(|s| s.to_string())
    .collect()
}

#[test]
fn lists_stable_releases_newest_first() {
    let got = versions_from_refs(&fixture_refs(), ReleasesFilter::Stable);
    let texts: Vec<String> = got.iter().map(|v| v.to_version_string()).collect();
    assert_eq!(texts, vec!["0.14.1", "0.14.0", "0.13.5"]);
}

#[test]
fn lists_all_releases_newest_first() {
    let got = versions_from_refs(&fixture_refs(), ReleasesFilter::All);
    let texts: Vec<String> = got.iter().map(|v| v.to_version_string()).collect();
    assert_eq!(
        texts,
        vec!["0.15.0-alpha.1", "0.14.1", "0.14.1-rc.2", "0.14.0", "0.13.5"]
    );
}

#[test]
fn selection_cuts_after_the_limit() {
    let got = select_releases(&fixture_refs(), ReleasesFilter::All, 2);
    let texts: Vec<String> = got.iter().map(|v| v.to_version_string()).collect();
    assert_eq!(texts, vec!["0.15.0-alpha.1", "0.14.1"]);
    assert!(!got[0].is_stable());
    assert!(got[1].is_stable());
}

#[test]
fn latest_release_is_newest_stable() {
    let v = latest_release_from_refs(&fixture_refs()).unwrap();
    assert_eq!(v.to_version_string(), "0.14.1");
}

#[test]
fn latest_release_fails_on_empty_listing() {
    let refs: Vec<String> = vec!["refs/heads/master".to_string()];
    assert!(matches!(latest_release_from_refs(&refs), Err(Error::Unknown)));
}
