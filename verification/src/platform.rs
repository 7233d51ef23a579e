//! Target platforms and the mirror URLs built for them.

use vstd::prelude::*;
use vstd::string::*;

verus! {

/// Base URL of the mirror that hosts the client binaries.
pub const OC_MIRROR_BASE: &'static str = "https://mirror.openshift.com/pub/openshift-v4";

/// Directory for downloaded binaries, relative to the user's home directory.
pub const OC_BIN_DIR: &'static str = ".local/bin/oc_bins";

/// One OS/architecture target: the naming conventions the mirror uses for it.
#[derive(Debug, Clone)]
pub struct Platform {
    /// Stable key, e.g. "linux-x86_64".
    pub name: &'static str,
    /// Mirror subdirectory for this platform.
    pub mirror_path: &'static str,
    /// Binary name component used in download URLs.
    pub binary_suffix: &'static str,
    /// Extension of the downloaded archive.
    pub file_extension: &'static str,
}

/// The character sequence of the download URL for `version` on a platform.
pub open spec fn spec_download_url(p: Platform, version: Seq<char>) -> Seq<char> {
    OC_MIRROR_BASE@ + "/"@ + p.mirror_path@ + "/clients/ocp/"@ + version + "/openshift-client-"@
        + p.binary_suffix@ + "-"@ + version + "."@ + p.file_extension@
}

/// The character sequence of the version-listing URL for a platform.
pub open spec fn spec_versions_url(p: Platform) -> Seq<char> {
    OC_MIRROR_BASE@ + "/"@ + p.mirror_path@ + "/clients/ocp/"@
}

impl Platform {
    /// Linux x86_64 platform configuration.
    pub fn linux_x86_64() -> (p: Platform)
        ensures
            p.name@ == "linux-x86_64"@,
            p.mirror_path@ == "x86_64"@,
            p.binary_suffix@ == "linux"@,
            p.file_extension@ == "tar.gz"@,
    {
        Platform {
            name: "linux-x86_64",
            mirror_path: "x86_64",
            binary_suffix: "linux",
            file_extension: "tar.gz",
        }
    }

    /// Linux ARM64 platform configuration.
    pub fn linux_arm64() -> (p: Platform)
        ensures
            p.name@ == "linux-arm64"@,
            p.mirror_path@ == "aarch64"@,
            p.binary_suffix@ == "linux"@,
            p.file_extension@ == "tar.gz"@,
    {
        Platform {
            name: "linux-arm64",
            mirror_path: "aarch64",
            binary_suffix: "linux",
            file_extension: "tar.gz",
        }
    }

    /// macOS x86_64 platform configuration.
    pub fn mac_x86_64() -> (p: Platform)
        ensures
            p.name@ == "mac-x86_64"@,
            p.mirror_path@ == "x86_64"@,
            p.binary_suffix@ == "mac"@,
            p.file_extension@ == "tar.gz"@,
    {
        Platform {
            name: "mac-x86_64",
            mirror_path: "x86_64",
            binary_suffix: "mac",
            file_extension: "tar.gz",
        }
    }

    /// macOS ARM64 platform configuration.  The mirror keeps these binaries
    /// in the x86_64 directory.
    pub fn mac_arm64() -> (p: Platform)
        ensures
            p.name@ == "mac-arm64"@,
            p.mirror_path@ == "x86_64"@,
            p.binary_suffix@ == "mac-arm64"@,
            p.file_extension@ == "tar.gz"@,
    {
        Platform {
            name: "mac-arm64",
            mirror_path: "x86_64",
            binary_suffix: "mac-arm64",
            file_extension: "tar.gz",
        }
    }

    /// Builds the download URL for `version` on this platform.
    pub fn build_download_url(&self, version: &str) -> (r: String)
        ensures
            r@ == spec_download_url(*self, version@),
    {
        let mut s = String::from_str(OC_MIRROR_BASE);
        s.append("/");
        s.append(self.mirror_path);
        s.append("/clients/ocp/");
        s.append(version);
        s.append("/openshift-client-");
        s.append(self.binary_suffix);
        s.append("-");
        s.append(version);
        s.append(".");
        s.append(self.file_extension);
        s
    }

    /// Builds the URL of the directory listing of available versions.
    pub fn build_versions_url(&self) -> (r: String)
        ensures
            r@ == spec_versions_url(*self),
    {
        let mut s = String::from_str(OC_MIRROR_BASE);
        s.append("/");
        s.append(self.mirror_path);
        s.append("/clients/ocp/");
        s
    }
}

} // verus!
