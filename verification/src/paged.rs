//! The paginated listing source: a pull-based state machine over numbered
//! listing pages. The caller fetches the page a `Ready` state asks for,
//! hands the outcome back, and pulls versions one at a time; a "not found"
//! page ends the enumeration cleanly, with no further fetch ever requested.

use vstd::prelude::*;

use crate::releases::ReleasesFilter;
use crate::scan::{scan_page_next, spec_scan_next, ScanNext, ScanOutcome};
use crate::version::{Version, VersionV};
use crate::Error;

verus! {

/// Outcome of one page fetch, handed in by the transport.
pub enum PageFetch {
    /// The page body.
    Body(Vec<u8>),
    /// The defined end-of-data signal.
    NotFound,
    /// Any other failure: fatal for the enumeration.
    Failed,
}

/// State of one paginated enumeration. Page numbers start at 1; the byte
/// offset always lies within the current page's text and resets to 0
/// whenever the page number advances.
pub enum SourceState {
    /// The fetch of `page` has not been issued yet.
    Ready { page: u64 },
    /// The fetch of `page` is in flight.
    Loading { page: u64 },
    /// `page` arrived as `text`; scanning continues at `offset`.
    Fetched { page: u64, text: Vec<u8>, offset: usize },
    /// The enumeration is over; nothing is ever fetched again.
    Terminated,
}

/// The page a state wants fetched: only a `Ready` state asks for one.
pub open spec fn spec_fetch_request(s: SourceState) -> Option<u64> {
    match s {
        SourceState::Ready { page } => Some(page),
        _ => None,
    }
}

pub open spec fn spec_state_page(s: SourceState) -> u64 {
    match s {
        SourceState::Ready { page } => page,
        SourceState::Loading { page } => page,
        SourceState::Fetched { page, .. } => page,
        SourceState::Terminated => 0,
    }
}

/// What one pull from the enumerator reports.
pub enum ScanStep {
    /// The next accepted version.
    Yielded(Version),
    /// The current page is exhausted or not fetched yet: fetch the page
    /// `fetch_request` names and hand the outcome to `supply`.
    NeedFetch,
    /// The enumeration has ended cleanly.
    Finished,
    /// The enumeration failed; it is terminated.
    Failed(Error),
}

/// A pull-based enumerator over paginated listing text.
pub struct PagedSource {
    pub filter: ReleasesFilter,
    pub state: SourceState,
}

impl PagedSource {
    /// The scan offset never leaves the current page's text.
    pub open spec fn inv(self) -> bool {
        match self.state {
            SourceState::Fetched { text, offset, .. } => offset <= text@.len(),
            _ => true,
        }
    }

    /// A fresh enumeration, about to ask for page 1.
    pub fn new(filter: ReleasesFilter) -> (s: PagedSource)
        ensures
            s.filter == filter,
            s.state == (SourceState::Ready { page: 1u64 }),
            s.inv(),
    {
        PagedSource { filter, state: SourceState::Ready { page: 1 } }
    }

    /// The page to fetch next, if the enumerator is waiting for one.
    /// A terminated enumeration never asks for another fetch.
    pub fn fetch_request(&self) -> (r: Option<u64>)
        ensures
            r == spec_fetch_request(self.state),
    {
        match &self.state {
            SourceState::Ready { page } => Some(*page),
            _ => None,
        }
    }

    /// Marks the requested fetch as issued: exactly one request in flight.
    pub fn begin_fetch(&mut self) -> (r: u64)
        requires
            old(self).state is Ready,
            old(self).inv(),
        ensures
            r == spec_state_page(old(self).state),
            final(self).state == (SourceState::Loading { page: r }),
            final(self).filter == old(self).filter,
            final(self).inv(),
    {
        let page = match &self.state {
            SourceState::Ready { page } => *page,
            _ => 0,
        };
        self.state = SourceState::Loading { page };
        page
    }

    /// Takes the outcome of the in-flight fetch. A "not found" page
    /// terminates the enumeration cleanly; any other failure terminates
    /// it with `Error::Request`; a body starts a scan at offset 0.
    pub fn supply(&mut self, fetched: PageFetch) -> (r: Result<(), Error>)
        requires
            old(self).state is Loading,
            old(self).inv(),
        ensures
            final(self).filter == old(self).filter,
            final(self).inv(),
            match fetched {
                PageFetch::NotFound => final(self).state is Terminated && r is Ok,
                PageFetch::Failed => final(self).state is Terminated && r == Err::<(), Error>(
                    Error::Request,
                ),
                PageFetch::Body(text) => final(self).state == (SourceState::Fetched {
                    page: spec_state_page(old(self).state),
                    text,
                    offset: 0,
                }) && r is Ok,
            },
    {
        let page = match &self.state {
            SourceState::Loading { page } => *page,
            _ => 0,
        };
        match fetched {
            PageFetch::NotFound => {
                self.state = SourceState::Terminated;
                Ok(())
            },
            PageFetch::Failed => {
                self.state = SourceState::Terminated;
                Err(Error::Request)
            },
            PageFetch::Body(text) => {
                self.state = SourceState::Fetched { page, text, offset: 0 };
                Ok(())
            },
        }
    }

    /// Pulls the next item. On a fetched page this scans from the saved
    /// offset: it yields the next accepted version and remembers the
    /// offset past its span; on a malformed captured span it fails with
    /// `Error::SemVer`; on exhaustion it advances to the next page with
    /// the offset reset to 0, and asks for a fetch.
    pub fn next_step(&mut self) -> (r: ScanStep)
        requires
            old(self).inv(),
        ensures
            final(self).filter == old(self).filter,
            final(self).inv(),
            match old(self).state {
                SourceState::Terminated => r is Finished && final(self).state is Terminated,
                SourceState::Ready { page } => r is NeedFetch
                    && final(self).state == old(self).state,
                SourceState::Loading { page } => r is NeedFetch
                    && final(self).state == old(self).state,
                SourceState::Fetched { page, text, offset } => match spec_scan_next(
                    text@,
                    offset as int,
                    old(self).filter,
                ) {
                    ScanNext::Found(v, e) => (match r {
                        ScanStep::Yielded(ver) => ver@ == v && ver@.wf() && final(self).state
                            == (SourceState::Fetched { page, text, offset: e as usize }),
                        _ => false,
                    }),
                    ScanNext::Bad => r == ScanStep::Failed(Error::SemVer)
                        && final(self).state is Terminated,
                    ScanNext::Done => if page < u64::MAX {
                        r is NeedFetch && final(self).state == (SourceState::Ready {
                            page: (page + 1) as u64,
                        })
                    } else {
                        r is Finished && final(self).state is Terminated
                    },
                },
            },
    {
        let mut st = SourceState::Terminated;
        core::mem::swap(&mut st, &mut self.state);
        match st {
            SourceState::Terminated => ScanStep::Finished,
            SourceState::Ready { page } => {
                self.state = SourceState::Ready { page };
                ScanStep::NeedFetch
            },
            SourceState::Loading { page } => {
                self.state = SourceState::Loading { page };
                ScanStep::NeedFetch
            },
            SourceState::Fetched { page, text, offset } => {
                match scan_page_next(&text, offset, self.filter) {
                    ScanOutcome::Found(ver, e) => {
                        self.state = SourceState::Fetched { page, text, offset: e };
                        ScanStep::Yielded(ver)
                    },
                    ScanOutcome::Invalid => ScanStep::Failed(Error::SemVer),
                    ScanOutcome::End => {
                        if page < u64::MAX {
                            self.state = SourceState::Ready { page: page + 1 };
                            ScanStep::NeedFetch
                        } else {
                            ScanStep::Finished
                        }
                    },
                }
            },
        }
    }
}

/// A terminated enumeration requests no fetch: after a "not found"
/// outcome, zero further fetches are ever issued.
pub proof fn lemma_terminated_requests_nothing(s: SourceState)
    requires
        s is Terminated,
    ensures
        spec_fetch_request(s) is None,
{
}

/// What enumerating over a row of pages produces: up to `n` accepted
/// versions in scan order, read from page `pi` at offset `off` on, the
/// row ending where a page is missing; nothing when a captured span
/// fails to parse before `n` versions are produced.
pub open spec fn spec_drain(
    pages: Seq<Seq<u8>>,
    pi: int,
    off: int,
    f: ReleasesFilter,
    n: nat,
) -> Option<Seq<VersionV>>
    decreases pages.len() - pi, pages[pi].len() - off,
    via spec_drain_decreases
{
    if n == 0 || pi < 0 || pi >= pages.len() || off < 0 || off > pages[pi].len() {
        Some(Seq::empty())
    } else {
        match spec_scan_next(pages[pi], off, f) {
            ScanNext::Found(v, e) => match spec_drain(pages, pi, e, f, (n - 1) as nat) {
                Some(rest) => Some(seq![v] + rest),
                None => None,
            },
            ScanNext::Bad => None,
            ScanNext::Done => spec_drain(pages, pi + 1, 0, f, n),
        }
    }
}

#[via_fn]
proof fn spec_drain_decreases(pages: Seq<Seq<u8>>, pi: int, off: int, f: ReleasesFilter, n: nat) {
    if !(n == 0 || pi < 0 || pi >= pages.len() || off < 0 || off > pages[pi].len()) {
        if spec_scan_next(pages[pi], off, f) is Found {
            crate::scan::lemma_scan_next_found(pages[pi], off, f);
        }
    }
}

/// Enumerates over pages already in hand: pages[k] plays the part of
/// listing page k + 1, and the end of the vector is the "not found"
/// signal. Returns the first `n` accepted versions in scan order, or
/// `Error::SemVer` when a captured span fails to parse first.
pub fn collect_from_pages(pages: &Vec<Vec<u8>>, filter: ReleasesFilter, n: usize) -> (r: Result<
    Vec<Version>,
    Error,
>)
    ensures
        match r {
            Ok(vs) => spec_drain(pages.deep_view(), 0, 0, filter, n as nat) == Some(
                vs@.map_values(|ver: Version| ver@),
            ) && vs@.len() <= n && (forall|k: int| 0 <= k < vs@.len() ==> (#[trigger] vs@[k]@).wf())
                && (filter is Stable ==> forall|k: int|
                0 <= k < vs@.len() ==> (#[trigger] vs@[k]@).pre.len() == 0),
            Err(e) => e == Error::SemVer && spec_drain(pages.deep_view(), 0, 0, filter, n as nat)
                is None,
        },
{
    let ghost pv = pages.deep_view();
    let mut acc: Vec<Version> = Vec::new();
    let mut pi: usize = 0;
    let mut off: usize = 0;
    loop
        invariant
            pv == pages.deep_view(),
            pv.len() == pages@.len(),
            forall|k: int| 0 <= k < pages@.len() ==> pv[k] == #[trigger] pages@[k]@,
            pi <= pages@.len(),
            pi < pages@.len() ==> off <= pv[pi as int].len(),
            acc@.len() <= n,
            ({
                let tail = spec_drain(pv, pi as int, off as int, filter, (n - acc@.len()) as nat);
                let whole = spec_drain(pv, 0, 0, filter, n as nat);
                match tail {
                    Some(rest) => whole == Some(acc@.map_values(|ver: Version| ver@) + rest),
                    None => whole is None,
                }
            }),
            forall|k: int| 0 <= k < acc@.len() ==> (#[trigger] acc@[k]@).wf(),
            filter is Stable ==> forall|k: int|
                0 <= k < acc@.len() ==> (#[trigger] acc@[k]@).pre.len() == 0,
        decreases n - acc@.len(), pages@.len() - pi, (if (pi as int) < pv.len() {
            pv[pi as int].len() - off
        } else {
            0
        }),
    {
        if acc.len() == n || pi >= pages.len() {
            proof {
                assert(spec_drain(pv, pi as int, off as int, filter, (n - acc@.len()) as nat)
                    == Some(Seq::<VersionV>::empty()));
                assert(acc@.map_values(|ver: Version| ver@) + Seq::<VersionV>::empty()
                    =~= acc@.map_values(|ver: Version| ver@));
            }
            return Ok(acc);
        }
        let ghost m = (n - acc@.len()) as nat;
        match scan_page_next(&pages[pi], off, filter) {
            ScanOutcome::Found(ver, e) => {
                proof {
                    crate::scan::lemma_scan_next_found(pv[pi as int], off as int, filter);
                    let vv = ver@;
                    let rest_opt = spec_drain(pv, pi as int, e as int, filter, (m - 1) as nat);
                    let accv = acc@.map_values(|x: Version| x@);
                    match rest_opt {
                        Some(rest) => {
                            assert(acc@.push(ver).map_values(|x: Version| x@) =~= accv.push(vv));
                            assert(accv + (seq![vv] + rest) =~= accv.push(vv) + rest);
                        },
                        None => {},
                    }
                }
                acc.push(ver);
                off = e;
            },
            ScanOutcome::Invalid => {
                return Err(Error::SemVer);
            },
            ScanOutcome::End => {
                pi = pi + 1;
                off = 0;
            },
        }
    }
}

} // verus!
