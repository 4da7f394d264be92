//! Naming of the platform-specific artifact of a release, and of the digest
//! file published beside it: `{base}/go{release}.{os}-{arch}.{extension}`.

use vstd::prelude::*;
use crate::error::Error;
use crate::text::{bytes_equal, literal, push_all, text};
use crate::integrity::{parse_digest_file, stated_digest};
use crate::version::{render, ReleaseIdentifier, ReleaseView};

verus! {

/// Operating systems for which artifacts are published.
#[derive(Debug, Clone, Copy, PartialEq, Eq, Structural)]
pub enum GoOs {
    Linux,
    Darwin,
    Windows,
    FreeBsd,
}

/// Architectures for which artifacts are published.
#[derive(Debug, Clone, Copy, PartialEq, Eq, Structural)]
pub enum GoArch {
    Amd64,
    Arm64,
    I386,
    Armv6l,
}

/// The platform an artifact is built for, fixed once from the host.
#[derive(Debug, Clone, Copy, PartialEq, Eq, Structural)]
pub struct Platform {
    pub os: GoOs,
    pub arch: GoArch,
}

/// The artifact operating system for a host operating system name.
pub open spec fn os_for_host(os: Seq<u8>) -> Option<GoOs> {
    if os == text("linux") {
        Some(GoOs::Linux)
    } else if os == text("macos") {
        Some(GoOs::Darwin)
    } else if os == text("windows") {
        Some(GoOs::Windows)
    } else if os == text("freebsd") {
        Some(GoOs::FreeBsd)
    } else {
        None
    }
}

/// The artifact architecture for a host architecture name.
pub open spec fn arch_for_host(arch: Seq<u8>) -> Option<GoArch> {
    if arch == text("x86_64") {
        Some(GoArch::Amd64)
    } else if arch == text("aarch64") {
        Some(GoArch::Arm64)
    } else if arch == text("x86") {
        Some(GoArch::I386)
    } else if arch == text("arm") {
        Some(GoArch::Armv6l)
    } else {
        None
    }
}

pub open spec fn host_platform(os: Seq<u8>, arch: Seq<u8>) -> Option<Platform> {
    match (os_for_host(os), arch_for_host(arch)) {
        (Some(o), Some(a)) => Some(Platform { os: o, arch: a }),
        _ => None,
    }
}

/// Maps the host's operating system and architecture names (as the Rust
/// standard library spells them) to the artifact platform.
pub fn platform_for(os: &[u8], arch: &[u8]) -> (r: Result<Platform, Error>)
    ensures
        match r {
            Ok(p) => host_platform(os@, arch@) == Some(p),
            Err(e) => e == Error::UnsupportedPlatform && host_platform(os@, arch@) is None,
        },
{
    proof {
        reveal_strlit("linux");
        reveal_strlit("macos");
        reveal_strlit("windows");
        reveal_strlit("freebsd");
        reveal_strlit("x86_64");
        reveal_strlit("aarch64");
        reveal_strlit("x86");
        reveal_strlit("arm");
    }
    let o = if bytes_equal(os, literal("linux").as_slice()) {
        GoOs::Linux
    } else if bytes_equal(os, literal("macos").as_slice()) {
        GoOs::Darwin
    } else if bytes_equal(os, literal("windows").as_slice()) {
        GoOs::Windows
    } else if bytes_equal(os, literal("freebsd").as_slice()) {
        GoOs::FreeBsd
    } else {
        return Err(Error::UnsupportedPlatform);
    };
    let a = if bytes_equal(arch, literal("x86_64").as_slice()) {
        GoArch::Amd64
    } else if bytes_equal(arch, literal("aarch64").as_slice()) {
        GoArch::Arm64
    } else if bytes_equal(arch, literal("x86").as_slice()) {
        GoArch::I386
    } else if bytes_equal(arch, literal("arm").as_slice()) {
        GoArch::Armv6l
    } else {
        return Err(Error::UnsupportedPlatform);
    };
    Ok(Platform { os: o, arch: a })
}

pub open spec fn os_name(o: GoOs) -> Seq<u8> {
    match o {
        GoOs::Linux => text("linux"),
        GoOs::Darwin => text("darwin"),
        GoOs::Windows => text("windows"),
        GoOs::FreeBsd => text("freebsd"),
    }
}

pub open spec fn arch_name(a: GoArch) -> Seq<u8> {
    match a {
        GoArch::Amd64 => text("amd64"),
        GoArch::Arm64 => text("arm64"),
        GoArch::I386 => text("386"),
        GoArch::Armv6l => text("armv6l"),
    }
}

/// Windows artifacts are zip archives, the others gzipped tarballs.
pub open spec fn extension(o: GoOs) -> Seq<u8> {
    match o {
        GoOs::Windows => text("zip"),
        _ => text("tar.gz"),
    }
}

/// The file name of the artifact of release `v` for platform `p`.
pub open spec fn artifact_name(v: ReleaseView, p: Platform) -> Seq<u8> {
    text("go") + render(v) + text(".") + os_name(p.os) + text("-") + arch_name(p.arch) + text(".") + extension(p.os)
}

/// Where the artifact is published under `base`.
pub open spec fn artifact_url(base: Seq<u8>, v: ReleaseView, p: Platform) -> Seq<u8> {
    base + text("/") + artifact_name(v, p)
}

/// Where the digest of the artifact is published under `base`.
pub open spec fn digest_url(base: Seq<u8>, v: ReleaseView, p: Platform) -> Seq<u8> {
    artifact_url(base, v, p) + text(".sha256")
}

fn os_text(o: GoOs) -> (r: Vec<u8>)
    ensures
        r@ == os_name(o),
{
    proof {
        reveal_strlit("linux");
        reveal_strlit("darwin");
        reveal_strlit("windows");
        reveal_strlit("freebsd");
    }
    match o {
        GoOs::Linux => literal("linux"),
        GoOs::Darwin => literal("darwin"),
        GoOs::Windows => literal("windows"),
        GoOs::FreeBsd => literal("freebsd"),
    }
}

fn arch_text(a: GoArch) -> (r: Vec<u8>)
    ensures
        r@ == arch_name(a),
{
    proof {
        reveal_strlit("amd64");
        reveal_strlit("arm64");
        reveal_strlit("386");
        reveal_strlit("armv6l");
    }
    match a {
        GoArch::Amd64 => literal("amd64"),
        GoArch::Arm64 => literal("arm64"),
        GoArch::I386 => literal("386"),
        GoArch::Armv6l => literal("armv6l"),
    }
}

fn extension_text(o: GoOs) -> (r: Vec<u8>)
    ensures
        r@ == extension(o),
{
    proof {
        reveal_strlit("zip");
        reveal_strlit("tar.gz");
    }
    match o {
        GoOs::Windows => literal("zip"),
        _ => literal("tar.gz"),
    }
}

/// The file name of the artifact of `release` for `platform`.
pub fn artifact_file_name(release: &ReleaseIdentifier, platform: Platform) -> (r: Vec<u8>)
    ensures
        r@ == artifact_name(release@, platform),
{
    proof {
        reveal_strlit("go");
        reveal_strlit(".");
        reveal_strlit("-");
    }
    let mut out = literal("go");
    push_all(&mut out, release.to_text().as_slice());
    push_all(&mut out, literal(".").as_slice());
    push_all(&mut out, os_text(platform.os).as_slice());
    push_all(&mut out, literal("-").as_slice());
    push_all(&mut out, arch_text(platform.arch).as_slice());
    push_all(&mut out, literal(".").as_slice());
    push_all(&mut out, extension_text(platform.os).as_slice());
    out
}

/// The download URL of the artifact under `base`.
pub fn artifact_location(base: &[u8], release: &ReleaseIdentifier, platform: Platform) -> (r: Vec<u8>)
    ensures
        r@ == artifact_url(base@, release@, platform),
{
    proof {
        reveal_strlit("/");
    }
    let mut out = vstd::slice::slice_to_vec(base);
    push_all(&mut out, literal("/").as_slice());
    push_all(&mut out, artifact_file_name(release, platform).as_slice());
    assert(out@ =~= artifact_url(base@, release@, platform));
    out
}

/// The URL of the digest file published beside the artifact.
pub fn digest_location(base: &[u8], release: &ReleaseIdentifier, platform: Platform) -> (r: Vec<u8>)
    ensures
        r@ == digest_url(base@, release@, platform),
{
    proof {
        reveal_strlit(".sha256");
    }
    let mut out = artifact_location(base, release, platform);
    push_all(&mut out, literal(".sha256").as_slice());
    out
}

/// Everything needed to fetch and check the artifact of one release.
#[derive(Debug, Clone, PartialEq, Eq)]
pub struct ArtifactDescriptor {
    pub release: ReleaseIdentifier,
    pub platform: Platform,
    pub url: Vec<u8>,
    pub expected_digest: Vec<u8>,
    pub content_length: u64,
}

impl ArtifactDescriptor {
    /// Describes the artifact of `release` for `platform` under `base`,
    /// given the body of its digest file and its size.
    pub fn new(
        base: &[u8],
        release: ReleaseIdentifier,
        platform: Platform,
        digest_body: &[u8],
        content_length: u64,
    ) -> (r: Result<ArtifactDescriptor, Error>)
        ensures
            match r {
                Ok(d) => {
                    &&& stated_digest(digest_body@) == Some(d.expected_digest@)
                    &&& d.release == release
                    &&& d.platform == platform
                    &&& d.url@ == artifact_url(base@, release@, platform)
                    &&& d.content_length == content_length
                },
                Err(e) => e == Error::DigestUnavailable && stated_digest(digest_body@) is None,
            },
    {
        let expected_digest = match parse_digest_file(digest_body) {
            Ok(d) => d,
            Err(e) => {
                return Err(e);
            },
        };
        let url = artifact_location(base, &release, platform);
        Ok(ArtifactDescriptor { release, platform, url, expected_digest, content_length })
    }
}

} // verus!
