use wasmedgeup::asset::{is_manylinux2014_supported, Asset, TargetArch, TargetOS};
use wasmedgeup::version::Version;

fn archive(v: &Version, os: TargetOS, arch: TargetArch) -> String {
    Asset::new(v, &os, &arch).archive_name
}

#[test]
fn resolves_ubuntu_and_manylinux_archives() {
    // ARM Ubuntu builds exist only from 0.13.5 on; below, the generic
    // manylinux naming applies.
    assert_eq!(
        archive(&Version::new(0, 13, 4), TargetOS::Ubuntu, TargetArch::Aarch64),
        "WasmEdge-0.13.4-manylinux2014_aarch64.tar.gz"
    );
    assert_eq!(
        archive(&Version::new(0, 13, 5), TargetOS::Ubuntu, TargetArch::Aarch64),
        "WasmEdge-0.13.5-ubuntu20.04_aarch64.tar.gz"
    );
    assert_eq!(
        archive(&Version::new(0, 14, 1), TargetOS::Ubuntu, TargetArch::X86_64),
        "WasmEdge-0.14.1-ubuntu20.04_x86_64.tar.gz"
    );
}

#[test]
fn manylinux_tag_switches_after_0_14() {
    assert_eq!(
        archive(&Version::new(0, 14, 0), TargetOS::Linux, TargetArch::X86_64),
        "WasmEdge-0.14.0-manylinux2014_x86_64.tar.gz"
    );
    assert_eq!(
        archive(&Version::new(0, 15, 0), TargetOS::Linux, TargetArch::X86_64),
        "WasmEdge-0.15.0-manylinux_2_28_x86_64.tar.gz"
    );
    assert!(is_manylinux2014_supported(&Version::new(0, 14, 9)));
    assert!(!is_manylinux2014_supported(&Version::new(0, 15, 0)));
    assert!(!is_manylinux2014_supported(&Version::new(1, 0, 0)));
}

#[test]
fn resolves_darwin_and_windows_archives() {
    // The Darwin ARM token is arm64, not aarch64.
    assert_eq!(
        archive(&Version::new(0, 14, 1), TargetOS::Darwin, TargetArch::Aarch64),
        "WasmEdge-0.14.1-darwin_arm64.tar.gz"
    );
    assert_eq!(
        archive(&Version::new(0, 14, 1), TargetOS::Darwin, TargetArch::X86_64),
        "WasmEdge-0.14.1-darwin_x86_64.tar.gz"
    );
    assert_eq!(
        archive(&Version::new(0, 14, 1), TargetOS::Windows, TargetArch::X86_64),
        "WasmEdge-0.14.1-windows.zip"
    );
    assert_eq!(
        archive(&Version::new(0, 14, 1), TargetOS::Windows, TargetArch::Aarch64),
        "WasmEdge-0.14.1-windows.zip"
    );
}

#[test]
fn install_directory_depends_on_os_alone() {
    let v = Version::new(0, 14, 1);
    let a = Asset::new(&v, &TargetOS::Ubuntu, &TargetArch::X86_64);
    assert_eq!(a.install_name, "WasmEdge-0.14.1-Linux");
    let a = Asset::new(&v, &TargetOS::Linux, &TargetArch::Aarch64);
    assert_eq!(a.install_name, "WasmEdge-0.14.1-Linux");
    let a = Asset::new(&v, &TargetOS::Darwin, &TargetArch::Aarch64);
    assert_eq!(a.install_name, "WasmEdge-0.14.1-Darwin");
    let a = Asset::new(&v, &TargetOS::Windows, &TargetArch::X86_64);
    assert_eq!(a.install_name, "WasmEdge-0.14.1-Windows");
}

#[test]
fn resolution_is_idempotent() {
    let v = Version::with_prerelease(0, 15, 0, b"alpha.1".to_vec()).unwrap();
    let first = Asset::new(&v, &TargetOS::Linux, &TargetArch::Aarch64);
    let second = Asset::new(&v, &TargetOS::Linux, &TargetArch::Aarch64);
    assert_eq!(first.archive_name, second.archive_name);
    assert_eq!(first.install_name, second.install_name);
    assert_eq!(first.archive_name, "WasmEdge-0.15.0-alpha.1-manylinux_2_28_aarch64.tar.gz");
}

#[test]
fn recognizes_platform_aliases() {
    assert!(matches!(TargetOS::from_name("macos"), Some(TargetOS::Darwin)));
    assert!(matches!(TargetOS::from_name("darwin"), Some(TargetOS::Darwin)));
    assert!(matches!(TargetOS::from_name("ubuntu"), Some(TargetOS::Ubuntu)));
    assert!(matches!(TargetOS::from_name("linux"), Some(TargetOS::Linux)));
    assert!(matches!(TargetOS::from_name("windows"), Some(TargetOS::Windows)));
    assert!(TargetOS::from_name("beos").is_none());

    assert!(matches!(TargetArch::from_name("amd64"), Some(TargetArch::X86_64)));
    assert!(matches!(TargetArch::from_name("x64"), Some(TargetArch::X86_64)));
    assert!(matches!(TargetArch::from_name("x86_64"), Some(TargetArch::X86_64)));
    assert!(matches!(TargetArch::from_name("arm64"), Some(TargetArch::Aarch64)));
    assert!(matches!(TargetArch::from_name("aarch64"), Some(TargetArch::Aarch64)));
    assert!(TargetArch::from_name("riscv64").is_none());
}
