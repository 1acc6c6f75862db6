use wasmedgeup::paged::{collect_from_pages, PagedSource, PageFetch, ScanStep};
use wasmedgeup::releases::ReleasesFilter;
use wasmedgeup::version::Version;
use wasmedgeup::Error;

fn page(text: &str) -> Vec<u8> {
    text.as_bytes().to_vec()
}

fn texts(versions: Vec<Version>) -> Vec<String> {
    versions.iter().map(|v| v.to_version_string()).collect()
}

#[test]
fn captures_plain_version() {
    let pages = vec![page("<a href=\"/x/releases/tag/1.0.0\">v</a>")];
    let got = collect_from_pages(&pages, ReleasesFilter::All, 10).unwrap();
    assert_eq!(texts(got), vec!["1.0.0"]);
}

#[test]
fn captures_prerelease_with_numeric_suffix() {
    let pages = vec![page("releases/tag/1.0.0-alpha.1")];
    let got = collect_from_pages(&pages, ReleasesFilter::All, 10).unwrap();
    assert_eq!(texts(got), vec!["1.0.0-alpha.1"]);
}

#[test]
fn drops_prerelease_without_numeric_suffix() {
    let pages = vec![page("releases/tag/1.0.0-alpha")];
    let got = collect_from_pages(&pages, ReleasesFilter::All, 10).unwrap();
    assert_eq!(texts(got), vec!["1.0.0"]);
}

#[test]
fn captures_only_first_prerelease_component() {
    let pages = vec![page("releases/tag/1.0.0-x.7.z.92")];
    let got = collect_from_pages(&pages, ReleasesFilter::All, 10).unwrap();
    assert_eq!(texts(got), vec!["1.0.0-x.7"]);
}

#[test]
fn ignores_build_metadata() {
    let pages = vec![page("releases/tag/1.0.0+20130313144700")];
    let got = collect_from_pages(&pages, ReleasesFilter::All, 10).unwrap();
    assert_eq!(texts(got), vec!["1.0.0"]);
}

#[test]
fn stable_filter_takes_first_ten_in_upstream_order() {
    // A source listing 0.15.0-alpha.1, 0.14.1, 0.14.1-rc.2 and 0.14.0 in
    // that order: prereleases are dropped, the order is preserved.
    let pages = vec![page(
        "releases/tag/0.15.0-alpha.1 releases/tag/0.14.1 \
         releases/tag/0.14.1-rc.2 releases/tag/0.14.0",
    )];
    let got = collect_from_pages(&pages, ReleasesFilter::Stable, 10).unwrap();
    assert_eq!(texts(got), vec!["0.14.1", "0.14.0"]);
}

#[test]
fn scans_across_pages_and_respects_limit() {
    let pages = vec![
        page("releases/tag/0.15.0 releases/tag/0.14.1"),
        page("releases/tag/0.14.0"),
        page("releases/tag/0.13.5"),
    ];
    let got = collect_from_pages(&pages, ReleasesFilter::All, 3).unwrap();
    assert_eq!(texts(got), vec!["0.15.0", "0.14.1", "0.14.0"]);
}

#[test]
fn malformed_captured_span_is_fatal() {
    // A leading zero is captured by the pattern but rejected as a version.
    let pages = vec![page("releases/tag/01.0.0")];
    assert!(matches!(
        collect_from_pages(&pages, ReleasesFilter::All, 10),
        Err(Error::SemVer)
    ));
    // A major number beyond u64 overflows.
    let pages = vec![page("releases/tag/99999999999999999999.0.0")];
    assert!(matches!(
        collect_from_pages(&pages, ReleasesFilter::All, 10),
        Err(Error::SemVer)
    ));
}

#[test]
fn skips_text_without_full_pattern() {
    let pages = vec![page("releases/tag/ no version here, releases/tag/1.2 either")];
    let got = collect_from_pages(&pages, ReleasesFilter::All, 10).unwrap();
    assert!(got.is_empty());
}

#[test]
fn not_found_terminates_without_further_fetches() {
    let mut src = PagedSource::new(ReleasesFilter::Stable);
    assert_eq!(src.fetch_request(), Some(1));
    let page_no = src.begin_fetch();
    assert_eq!(page_no, 1);
    assert!(src.supply(PageFetch::NotFound).is_ok());
    // Terminated: no fetch is ever requested again, pulling says finished.
    assert_eq!(src.fetch_request(), None);
    assert!(matches!(src.next_step(), ScanStep::Finished));
    assert_eq!(src.fetch_request(), None);
}

#[test]
fn transport_failure_is_fatal() {
    let mut src = PagedSource::new(ReleasesFilter::Stable);
    src.begin_fetch();
    assert!(matches!(src.supply(PageFetch::Failed), Err(Error::Request)));
    assert_eq!(src.fetch_request(), None);
    assert!(matches!(src.next_step(), ScanStep::Finished));
}

#[test]
fn pull_loop_walks_pages_in_order() {
    let mut src = PagedSource::new(ReleasesFilter::All);
    let mut yielded: Vec<String> = Vec::new();
    let bodies = [
        "releases/tag/0.14.1 releases/tag/0.14.0",
        "releases/tag/0.13.5",
    ];
    loop {
        match src.next_step() {
            ScanStep::Yielded(v) => yielded.push(v.to_version_string()),
            ScanStep::NeedFetch => {
                let page_no = src.begin_fetch();
                let outcome = if (page_no as usize) <= bodies.len() {
                    PageFetch::Body(bodies[(page_no - 1) as usize].as_bytes().to_vec())
                } else {
                    PageFetch::NotFound
                };
                src.supply(outcome).unwrap();
            }
            ScanStep::Finished => break,
            ScanStep::Failed(e) => panic!("unexpected failure: {:?}", e),
        }
    }
    assert_eq!(yielded, vec!["0.14.1", "0.14.0", "0.13.5"]);
}
