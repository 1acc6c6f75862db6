//! Argument payloads of the installer commands, and the decisions they
//! carry: which filter a listing uses, what the `version` argument asks
//! for, and how the release listing is rendered. Command-line parsing
//! itself and all I/O stay with the caller.

use vstd::prelude::*;
use vstd::string::StringExecFns;

use crate::asset::{TargetArch, TargetOS};
use crate::releases::ReleasesFilter;
use crate::text::{split_once_char, str_eq_str};
use crate::version::{parse_semver, semver_parsed, version_chars, Version};
use crate::Error;

verus! {

/// Relies on std::path::PathBuf as an opaque carrier for install and
/// staging locations; nothing here reads into it.
#[verifier::external_type_specification]
#[verifier::external_body]
pub struct ExPathBuf(std::path::PathBuf);

/// Arguments of the install command.
pub struct InstallArgs {
    /// The requested version: `latest`, or an exact version text.
    pub version: String,
    /// The install location; the caller defaults it to the home directory.
    pub path: Option<std::path::PathBuf>,
    /// The staging directory; the caller defaults it to the system one.
    pub tmpdir: Option<std::path::PathBuf>,
    /// The target OS, host-detected when absent.
    pub os: Option<TargetOS>,
    /// The target architecture, host-detected when absent.
    pub arch: Option<TargetArch>,
}

/// Arguments of the list command.
pub struct ListArgs {
    /// Include prerelease versions.
    pub all: bool,
}

impl ListArgs {
    /// The filter the flag selects: everything with `all`, stable
    /// releases only otherwise.
    pub fn filter(&self) -> (r: ReleasesFilter)
        ensures
            r == (if self.all {
                ReleasesFilter::All
            } else {
                ReleasesFilter::Stable
            }),
    {
        if self.all {
            ReleasesFilter::All
        } else {
            ReleasesFilter::Stable
        }
    }
}

/// Arguments of the remove command.
pub struct RemoveArgs {
    /// The version to remove: `latest`, or an exact version text.
    pub version: String,
    /// The target OS, host-detected when absent.
    pub os: Option<TargetOS>,
    /// The target architecture, host-detected when absent.
    pub arch: Option<TargetArch>,
}

/// What a `version` argument asks for.
pub enum VersionRequest {
    /// The newest stable release.
    Latest,
    /// One exact version.
    Exact(Version),
}

/// Reads a `version` argument: the word `latest`, or an exact semantic
/// version; anything else is `Error::SemVer`.
pub fn parse_version_request(s: &str) -> (r: Result<VersionRequest, Error>)
    ensures
        match r {
            Ok(VersionRequest::Latest) => s@ == "latest"@,
            Ok(VersionRequest::Exact(v)) => s@ != "latest"@ && semver_parsed(s@) == Some(v@)
                && v.wf(),
            Err(e) => e == Error::SemVer && s@ != "latest"@ && semver_parsed(s@) is None,
        },
{
    if str_eq_str(s, "latest") {
        Ok(VersionRequest::Latest)
    } else {
        match parse_semver(s) {
            Some(v) => Ok(VersionRequest::Exact(v)),
            None => Err(Error::SemVer),
        }
    }
}

/// A plugin to install or remove: a name, optionally pinned to a version
/// by `name@version`.
pub enum PluginVersion {
    Name(String),
    NameAndVersion(String, Version),
}

impl PluginVersion {
    /// Splits at the first `@`: without one, the whole text is the name;
    /// with one, the rest must be an exact semantic version.
    pub fn parse(s: &str) -> (r: Result<PluginVersion, Error>)
        ensures
            match r {
                Ok(PluginVersion::Name(n)) => !s@.contains('@') && n@ == s@,
                Ok(PluginVersion::NameAndVersion(n, v)) => v.wf() && exists|rest: Seq<char>|
                    s@ == n@ + seq!['@'] + rest && !n@.contains('@') && #[trigger] semver_parsed(
                        rest,
                    ) == Some(v@),
                Err(e) => e == Error::SemVer && exists|rest: Seq<char>|
                    {
                        &&& exists|n: Seq<char>| s@ == n + seq!['@'] + rest && !n.contains('@')
                        &&& #[trigger] semver_parsed(rest) is None
                    },
            },
    {
        match split_once_char(s, '@') {
            None => Ok(PluginVersion::Name(String::from_str(s))),
            Some((name, rest)) => {
                match parse_semver(rest) {
                    Some(v) => Ok(PluginVersion::NameAndVersion(String::from_str(name), v)),
                    None => Err(Error::SemVer),
                }
            },
        }
    }
}

/// The printed release listing: one line per release, the latest one
/// marked. This is the text the list command writes out.
pub fn render_release_lines(releases: &Vec<Version>, latest: &Version) -> (r: Vec<String>)
    requires
        forall|k: int| 0 <= k < releases@.len() ==> (#[trigger] releases@[k]@).wf(),
        latest.wf(),
    ensures
        r@.len() == releases@.len(),
        forall|k: int|
            0 <= k < r@.len() ==> #[trigger] r@[k]@ == version_chars(releases@[k]@) + (
            if releases@[k]@ == latest@ {
                " <- latest"@
            } else {
                Seq::<char>::empty()
            }),
{
    let mut r: Vec<String> = Vec::new();
    let mut i: usize = 0;
    while i < releases.len()
        invariant
            i <= releases@.len(),
            r@.len() == i,
            forall|k: int| 0 <= k < releases@.len() ==> (#[trigger] releases@[k]@).wf(),
            latest.wf(),
            forall|k: int|
                0 <= k < i ==> #[trigger] r@[k]@ == version_chars(releases@[k]@) + (
                if releases@[k]@ == latest@ {
                    " <- latest"@
                } else {
                    Seq::<char>::empty()
                }),
        decreases releases@.len() - i,
    {
        let mut line = releases[i].to_version_string();
        if releases[i].eq_version(latest) {
            line.append(" <- latest");
        } else {
            proof {
                assert(line@ =~= line@ + Seq::<char>::empty());
            }
        }
        r.push(line);
        i = i + 1;
    }
    r
}

} // verus!
