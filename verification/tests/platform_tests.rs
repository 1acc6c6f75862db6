use wasmedgeup::args::{
    parse_version_request, render_release_lines, ListArgs, PluginVersion, VersionRequest,
};
use wasmedgeup::asset::TargetOS;
use wasmedgeup::platform::{default_os_for_linux, ubuntu_release_from_lsb};
use wasmedgeup::releases::ReleasesFilter;
use wasmedgeup::version::Version;
use wasmedgeup::Error;

fn lsb(text: &str) -> Option<(u32, u32)> {
    ubuntu_release_from_lsb(&text.as_bytes().to_vec())
}

#[test]
fn reads_release_line() {
    assert_eq!(lsb("RELEASE=20.04\n"), Some((20, 4)));
    assert_eq!(lsb("release=22.10"), Some((22, 10)));
    assert_eq!(lsb("ID=ubuntu\r\nRELEASE=18.04\r\n"), Some((18, 4)));
}

#[test]
fn falls_back_to_description_line() {
    assert_eq!(lsb("DESCRIPTION=Ubuntu 20.04.6 LTS\n"), Some((20, 4)));
    assert_eq!(lsb("DESCRIPTION=Debian 12\n"), None);
}

#[test]
fn skips_malformed_lines() {
    assert_eq!(lsb("RELEASE=nodots\nRELEASE=21.10\n"), Some((21, 10)));
    assert_eq!(lsb("no equals sign here\n\nRELEASE=20.04"), Some((20, 4)));
    assert_eq!(lsb(""), None);
}

#[test]
fn decides_default_linux_flavour() {
    assert!(matches!(default_os_for_linux(Some((20, 4))), TargetOS::Ubuntu));
    assert!(matches!(default_os_for_linux(Some((22, 4))), TargetOS::Ubuntu));
    assert!(matches!(default_os_for_linux(Some((20, 3))), TargetOS::Linux));
    assert!(matches!(default_os_for_linux(Some((18, 4))), TargetOS::Linux));
    assert!(matches!(default_os_for_linux(None), TargetOS::Linux));
}

#[test]
fn reads_version_requests() {
    assert!(matches!(parse_version_request("latest"), Ok(VersionRequest::Latest)));
    match parse_version_request("0.14.1-rc.1") {
        Ok(VersionRequest::Exact(v)) => {
            assert_eq!(v.to_version_string(), "0.14.1-rc.1");
        }
        other => panic!("unexpected: {:?}", other.is_ok()),
    }
    assert!(matches!(parse_version_request("newest"), Err(Error::SemVer)));
}

#[test]
fn list_flag_selects_filter() {
    assert!(matches!(ListArgs { all: true }.filter(), ReleasesFilter::All));
    assert!(matches!(ListArgs { all: false }.filter(), ReleasesFilter::Stable));
}

#[test]
fn parses_plugin_specifiers() {
    match PluginVersion::parse("wasi_nn").unwrap() {
        PluginVersion::Name(n) => assert_eq!(n, "wasi_nn"),
        _ => panic!("expected a bare name"),
    }
    match PluginVersion::parse("wasi_nn@0.14.1").unwrap() {
        PluginVersion::NameAndVersion(n, v) => {
            assert_eq!(n, "wasi_nn");
            assert_eq!(v.to_version_string(), "0.14.1");
        }
        _ => panic!("expected a pinned name"),
    }
    assert!(matches!(PluginVersion::parse("wasi_nn@not.a.version"), Err(Error::SemVer)));
}

#[test]
fn renders_listing_with_latest_marker() {
    let releases = vec![Version::new(0, 14, 1), Version::new(0, 14, 0)];
    let latest = Version::new(0, 14, 1);
    let lines = render_release_lines(&releases, &latest);
    assert_eq!(lines, vec!["0.14.1 <- latest".to_string(), "0.14.0".to_string()]);
}
