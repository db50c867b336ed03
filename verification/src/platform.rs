//! Names of the release assets, by platform.

use vstd::prelude::*;

verus! {

/// Operating systems for which release assets are published.
#[derive(Clone, Copy, Debug, PartialEq, Eq, Structural)]
pub enum TargetOs {
    Windows,
    MacOs,
    Linux,
}

/// Processor families for which release assets are published.
#[derive(Clone, Copy, Debug, PartialEq, Eq, Structural)]
pub enum TargetArch {
    X86_64,
    Aarch64,
}

/// The asset name for a platform, as a sequence of characters.
pub open spec fn asset_target(os: TargetOs, arch: TargetArch) -> Seq<char> {
    match (os, arch) {
        (TargetOs::Windows, _) => "Windows-x64"@,
        (TargetOs::MacOs, TargetArch::Aarch64) => "macOS-Silicon"@,
        (TargetOs::MacOs, TargetArch::X86_64) => "macOS-Intel"@,
        (TargetOs::Linux, TargetArch::Aarch64) => "Linux-arm64.tar"@,
        (TargetOs::Linux, TargetArch::X86_64) => "Linux-amd64.tar"@,
    }
}

/// The name under which the release for `os` and `arch` is published.
/// Windows has one asset for every processor.
pub fn get_asset_target_string(os: TargetOs, arch: TargetArch) -> (name: &'static str)
    ensures
        name@ == asset_target(os, arch),
{
    match os {
        TargetOs::Windows => "Windows-x64",
        TargetOs::MacOs => match arch {
            TargetArch::Aarch64 => "macOS-Silicon",
            TargetArch::X86_64 => "macOS-Intel",
        },
        TargetOs::Linux => match arch {
            TargetArch::Aarch64 => "Linux-arm64.tar",
            TargetArch::X86_64 => "Linux-amd64.tar",
        },
    }
}

} // verus!
