//! Asset resolution: the exact distribution archive filename and the
//! expected top-level unpack directory for a (version, OS, architecture)
//! triple, reproducing the historical naming-scheme transitions.

use vstd::prelude::*;
use vstd::string::StringExecFns;

use crate::text::str_eq_str;
use crate::version::{spec_cmp, version_chars, Version, VersionV};

verus! {

/// Target operating system of an installation.
#[derive(Debug, Clone, Copy, PartialEq, Eq, Structural)]
pub enum TargetOS {
    Linux,
    Ubuntu,
    Darwin,
    Windows,
}

/// Target processor architecture of an installation.
#[derive(Debug, Clone, Copy, PartialEq, Eq, Structural)]
pub enum TargetArch {
    X86_64,
    Aarch64,
}

impl TargetOS {
    /// The operating system a user-supplied name denotes, aliases included.
    pub open spec fn spec_from_name(s: Seq<char>) -> Option<TargetOS> {
        if s == "linux"@ {
            Some(TargetOS::Linux)
        } else if s == "ubuntu"@ {
            Some(TargetOS::Ubuntu)
        } else if s == "darwin"@ || s == "macos"@ {
            Some(TargetOS::Darwin)
        } else if s == "windows"@ {
            Some(TargetOS::Windows)
        } else {
            None
        }
    }

    pub fn from_name(s: &str) -> (r: Option<TargetOS>)
        ensures
            r == TargetOS::spec_from_name(s@),
    {
        if str_eq_str(s, "linux") {
            Some(TargetOS::Linux)
        } else if str_eq_str(s, "ubuntu") {
            Some(TargetOS::Ubuntu)
        } else if str_eq_str(s, "darwin") || str_eq_str(s, "macos") {
            Some(TargetOS::Darwin)
        } else if str_eq_str(s, "windows") {
            Some(TargetOS::Windows)
        } else {
            None
        }
    }
}

impl TargetArch {
    /// The architecture a user-supplied name denotes, aliases included.
    pub open spec fn spec_from_name(s: Seq<char>) -> Option<TargetArch> {
        if s == "x86_64"@ || s == "amd64"@ || s == "x64"@ {
            Some(TargetArch::X86_64)
        } else if s == "aarch64"@ || s == "arm64"@ {
            Some(TargetArch::Aarch64)
        } else {
            None
        }
    }

    pub fn from_name(s: &str) -> (r: Option<TargetArch>)
        ensures
            r == TargetArch::spec_from_name(s@),
    {
        if str_eq_str(s, "x86_64") || str_eq_str(s, "amd64") || str_eq_str(s, "x64") {
            Some(TargetArch::X86_64)
        } else if str_eq_str(s, "aarch64") || str_eq_str(s, "arm64") {
            Some(TargetArch::Aarch64)
        } else {
            None
        }
    }
}

pub open spec fn v0_13_5() -> VersionV {
    VersionV { major: 0, minor: 13, patch: 5, pre: Seq::empty() }
}

/// Versions at or below the 0.14 line, comparing major.minor only.
pub open spec fn spec_manylinux2014(v: VersionV) -> bool {
    v.major == 0 && v.minor <= 14
}

/// Whether this version's Linux archives still carry the `manylinux2014`
/// compatibility tag; newer lines switched to `manylinux_2_28`.
pub fn is_manylinux2014_supported(version: &Version) -> (r: bool)
    ensures
        r == spec_manylinux2014(version@),
{
    version.major == 0 && version.minor <= 14
}

pub open spec fn spec_arch_chars(arch: TargetArch) -> Seq<char> {
    match arch {
        TargetArch::X86_64 => "x86_64"@,
        TargetArch::Aarch64 => "aarch64"@,
    }
}

pub open spec fn spec_manylinux_chars(v: VersionV) -> Seq<char> {
    if spec_manylinux2014(v) {
        "manylinux2014"@
    } else {
        "manylinux_2_28"@
    }
}

/// The archive filename, most specific rule first: Ubuntu x86_64 builds,
/// Ubuntu aarch64 builds from 0.13.5 on, generic manylinux builds for the
/// other Linux combinations, the two Darwin builds, and the Windows zip.
pub open spec fn spec_archive_name(v: VersionV, os: TargetOS, arch: TargetArch) -> Seq<char> {
    if os is Ubuntu && arch is X86_64 {
        "WasmEdge-"@ + version_chars(v) + "-ubuntu20.04_x86_64.tar.gz"@
    } else if os is Ubuntu && arch is Aarch64 && spec_cmp(v, v0_13_5()) >= 0 {
        "WasmEdge-"@ + version_chars(v) + "-ubuntu20.04_aarch64.tar.gz"@
    } else if os is Linux || os is Ubuntu {
        "WasmEdge-"@ + version_chars(v) + "-"@ + spec_manylinux_chars(v) + "_"@ + spec_arch_chars(
            arch,
        ) + ".tar.gz"@
    } else if os is Darwin && arch is X86_64 {
        "WasmEdge-"@ + version_chars(v) + "-darwin_x86_64.tar.gz"@
    } else if os is Darwin {
        "WasmEdge-"@ + version_chars(v) + "-darwin_arm64.tar.gz"@
    } else {
        "WasmEdge-"@ + version_chars(v) + "-windows.zip"@
    }
}

/// The directory the archive unpacks into; it depends on the OS alone.
pub open spec fn spec_install_name(v: VersionV, os: TargetOS) -> Seq<char> {
    match os {
        TargetOS::Linux => "WasmEdge-"@ + version_chars(v) + "-Linux"@,
        TargetOS::Ubuntu => "WasmEdge-"@ + version_chars(v) + "-Linux"@,
        TargetOS::Darwin => "WasmEdge-"@ + version_chars(v) + "-Darwin"@,
        TargetOS::Windows => "WasmEdge-"@ + version_chars(v) + "-Windows"@,
    }
}

/// A resolved asset: the archive to download and the directory it is
/// expected to unpack into.
pub struct Asset {
    pub archive_name: String,
    pub install_name: String,
}

impl Asset {
    /// Resolves the asset names for a platform and version. The result is
    /// a pure function of the three inputs: two calls with identical
    /// inputs yield identical outputs.
    pub fn new(version: &Version, os: &TargetOS, arch: &TargetArch) -> (a: Asset)
        requires
            version.wf(),
        ensures
            a.archive_name@ == spec_archive_name(version@, *os, *arch),
            a.install_name@ == spec_install_name(version@, *os),
    {
        let vs = version.to_version_string();

        let mut archive = String::new();
        archive.append("WasmEdge-");
        archive.append(vs.as_str());
        let ubuntu_x86 = matches!(os, TargetOS::Ubuntu) && matches!(arch, TargetArch::X86_64);
        let ubuntu_arm_supported = matches!(os, TargetOS::Ubuntu) && matches!(
            arch,
            TargetArch::Aarch64,
        ) && version.cmp_precedence(&Version::new(0, 13, 5)) >= 0;
        if ubuntu_x86 {
            archive.append("-ubuntu20.04_x86_64.tar.gz");
        } else if ubuntu_arm_supported {
            archive.append("-ubuntu20.04_aarch64.tar.gz");
        } else if matches!(os, TargetOS::Linux) || matches!(os, TargetOS::Ubuntu) {
            archive.append("-");
            if is_manylinux2014_supported(version) {
                archive.append("manylinux2014");
            } else {
                archive.append("manylinux_2_28");
            }
            archive.append("_");
            match arch {
                TargetArch::X86_64 => archive.append("x86_64"),
                TargetArch::Aarch64 => archive.append("aarch64"),
            }
            archive.append(".tar.gz");
        } else if matches!(os, TargetOS::Darwin) && matches!(arch, TargetArch::X86_64) {
            archive.append("-darwin_x86_64.tar.gz");
        } else if matches!(os, TargetOS::Darwin) {
            archive.append("-darwin_arm64.tar.gz");
        } else {
            archive.append("-windows.zip");
        }

        let mut install = String::new();
        install.append("WasmEdge-");
        install.append(vs.as_str());
        match os {
            TargetOS::Linux => install.append("-Linux"),
            TargetOS::Ubuntu => install.append("-Linux"),
            TargetOS::Darwin => install.append("-Darwin"),
            TargetOS::Windows => install.append("-Windows"),
        }

        Asset { archive_name: archive, install_name: install }
    }
}

} // verus!
