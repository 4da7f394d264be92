use go_version_manager::artifact::{
    artifact_file_name, digest_location, platform_for, ArtifactDescriptor, GoArch, GoOs, Platform,
};
use go_version_manager::catalog::{
    build_catalog, catalog_from_listing, latest, listing_words, parse_entry, parse_selector, Selector,
};
use go_version_manager::download::{
    chunk_boundaries, download_outcome, plan_download, write_chunk, DownloadPlan,
};
use go_version_manager::error::Error;
use go_version_manager::integrity::{conclude, digests_match, parse_digest_file, verify};
use go_version_manager::version::{parse_version, ReleaseIdentifier};
use std::cmp::Ordering;

fn v(s: &str) -> ReleaseIdentifier {
    parse_version(s.as_bytes()).unwrap()
}

fn text(bytes: Vec<u8>) -> String {
    String::from_utf8(bytes).unwrap()
}

#[test]
fn parses_full_identifier() {
    let r = v("1.21.0");
    assert_eq!((r.major, r.minor, r.patch), (1, 21, Some(0)));
    assert!(r.tag.is_empty());
}

#[test]
fn parses_identifier_without_patch_and_with_tags() {
    let r = v("1.20");
    assert_eq!((r.major, r.minor, r.patch), (1, 20, None));
    let r = v("1.21rc2");
    assert_eq!((r.major, r.minor, r.patch), (1, 21, None));
    assert_eq!(r.tag, b"rc2".to_vec());
    let r = v("1.22.0-beta.1");
    assert_eq!(r.patch, Some(0));
    assert_eq!(r.tag, b"-beta.1".to_vec());
}

#[test]
fn rejects_malformed_identifiers() {
    for s in ["", "1", "1.", ".1", "abc", "1..2", "1.2.", "1.2.3.4", "1.2-", "1.2.3_x", "v1.2.3", "99999999999999999999.1"] {
        assert_eq!(parse_version(s.as_bytes()), Err(Error::VersionParse), "{}", s);
    }
}

#[test]
fn largest_numbers_parse() {
    let r = v("18446744073709551615.0.18446744073709551615");
    assert_eq!(r.major, u64::MAX);
    assert_eq!(r.patch, Some(u64::MAX));
    assert!(parse_version(b"18446744073709551616.0").is_err());
}

#[test]
fn round_trip_through_text() {
    for s in ["1.21.0", "1.20", "1.21rc2", "1.22.0-beta.1", "0.0.0", "10.200.3000"] {
        let r = v(s);
        assert_eq!(text(r.to_text()), s);
        assert_eq!(parse_version(&r.to_text()).unwrap(), r);
    }
    let r = v("01.002.0003");
    assert_eq!(text(r.to_text()), "1.2.3");
    assert_eq!(parse_version(&r.to_text()).unwrap(), r);
}

#[test]
fn total_order_of_releases() {
    let order = ["1.9", "1.19.13", "1.20rc1", "1.20", "1.20.0", "1.20.7", "1.21rc2", "1.21rc3", "1.21.0-beta1", "1.21.0", "2.0.0"];
    for (i, a) in order.iter().enumerate() {
        for (j, b) in order.iter().enumerate() {
            let expected = i.cmp(&j);
            assert_eq!(v(a).compare(&v(b)), expected, "{} {}", a, b);
            assert_eq!(v(a).is_older_than(&v(b)), expected == Ordering::Less);
        }
    }
}

#[test]
fn duplicate_keeps_value() {
    let r = v("1.21rc2");
    assert_eq!(r.duplicate(), r);
}

#[test]
fn latest_of_catalog() {
    let catalog = vec![v("1.21.0"), v("1.20.7"), v("1.19.13")];
    assert_eq!(latest(&catalog).unwrap(), v("1.21.0"));
    let shuffled = vec![v("1.19.13"), v("1.21.0"), v("1.20.7")];
    assert_eq!(latest(&shuffled).unwrap(), v("1.21.0"));
    assert_eq!(latest(&Vec::new()), Err(Error::CatalogEmpty));
}

#[test]
fn catalog_entries_accept_go_prefix() {
    assert_eq!(parse_entry(b"go1.21.0"), Some(v("1.21.0")));
    assert_eq!(parse_entry(b"1.21.0"), Some(v("1.21.0")));
    assert_eq!(parse_entry(b"weekly.2012-03-27"), None);
    assert_eq!(parse_entry(b"go"), None);
}

#[test]
fn catalog_is_sorted_deduplicated_and_filtered() {
    let tags: Vec<Vec<u8>> = ["go1.19.13", "release.r60", "go1.21.0", "go1.20.7", "go1.21.0", "weekly", "go1.21rc2"]
        .iter()
        .map(|s| s.as_bytes().to_vec())
        .collect();
    let c = build_catalog(&tags).unwrap();
    assert_eq!(c, vec![v("1.21.0"), v("1.21rc2"), v("1.20.7"), v("1.19.13")]);
    let junk: Vec<Vec<u8>> = vec![b"weekly".to_vec(), b"".to_vec()];
    assert_eq!(build_catalog(&junk), Err(Error::CatalogEmpty));
}

#[test]
fn catalog_from_listing_page() {
    let page = b"[{\"version\": \"go1.20.7\", \"stable\": true}, {\"version\": \"go1.21.0\"}, {\"version\": \"go1.19.13\"}]";
    assert_eq!(
        listing_words(page).into_iter().map(text).collect::<Vec<_>>(),
        vec!["version", "go1.20.7", "stable", "true", "version", "go1.21.0", "version", "go1.19.13"]
    );
    let c = catalog_from_listing(page).unwrap();
    assert_eq!(c, vec![v("1.21.0"), v("1.20.7"), v("1.19.13")]);
    assert_eq!(catalog_from_listing(b"<html>nothing here</html>"), Err(Error::CatalogEmpty));
    assert_eq!(catalog_from_listing(b""), Err(Error::CatalogEmpty));
}

#[test]
fn selectors() {
    assert_eq!(parse_selector(b"latest"), Ok(Selector::Latest));
    assert_eq!(parse_selector(b"1.21.0"), Ok(Selector::Explicit(v("1.21.0"))));
    assert_eq!(parse_selector(b"newest"), Err(Error::VersionParse));
    assert_eq!(parse_selector(b"Latest"), Err(Error::VersionParse));
}

#[test]
fn chunk_boundaries_of_hundred_bytes_among_three() {
    assert_eq!(chunk_boundaries(100, 3), vec![(0, 33), (33, 33), (66, 34)]);
}

#[test]
fn chunk_boundaries_edge_cases() {
    assert_eq!(chunk_boundaries(0, 4), vec![]);
    assert_eq!(chunk_boundaries(3, 8), vec![(0, 1), (1, 1), (2, 1)]);
    assert_eq!(chunk_boundaries(9, 4), vec![(0, 2), (2, 2), (4, 2), (6, 3)]);
    assert_eq!(chunk_boundaries(5, 4), vec![(0, 1), (1, 1), (2, 1), (3, 2)]);
    assert_eq!(chunk_boundaries(10, 0), vec![(0, 10)]);
    assert_eq!(chunk_boundaries(10, 1), vec![(0, 10)]);
    assert_eq!(chunk_boundaries(u64::MAX, 2), vec![(0, (1u64 << 63) - 1), ((1u64 << 63) - 1, 1u64 << 63)]);
}

#[test]
fn chunk_boundaries_partition() {
    for len in 0u64..60 {
        for workers in 1u64..12 {
            let b = chunk_boundaries(len, workers);
            let mut next = 0;
            for &(off, size) in &b {
                assert_eq!(off, next);
                assert!(size > 0);
                next = off + size;
            }
            assert_eq!(next, len);
            assert_eq!(b.len() as u64, workers.min(len));
            let total: u64 = b.iter().map(|&(_, size)| size).sum();
            assert_eq!(total, len);
        }
    }
}

#[test]
fn fallback_plan_without_ranges() {
    assert_eq!(plan_download(100, 3, false), vec![(0, 100)]);
    assert_eq!(plan_download(100, 3, true), vec![(0, 33), (33, 33), (66, 34)]);
    let plan = plan_download(100, 3, false);
    assert_eq!(download_outcome(&plan, &vec![Some(100)]), Ok(()));
}

#[test]
fn one_failed_worker_fails_the_download() {
    let plan = chunk_boundaries(100, 3);
    assert_eq!(
        download_outcome(&plan, &vec![Some(33), None, Some(34)]),
        Err(Error::PartialDownload { start: 33, end: 66 })
    );
    assert_eq!(download_outcome(&plan, &vec![Some(33), Some(33), Some(34)]), Ok(()));
    assert_eq!(
        download_outcome(&plan, &vec![Some(33), Some(33), Some(33)]),
        Err(Error::PartialDownload { start: 66, end: 100 })
    );
    assert_eq!(
        download_outcome(&plan, &vec![Some(33)]),
        Err(Error::PartialDownload { start: 33, end: 66 })
    );
    assert_eq!(download_outcome(&vec![], &vec![]), Ok(()));
}

#[test]
fn reassembly_in_any_order() {
    let content: Vec<u8> = (0u8..100).collect();
    let plan = chunk_boundaries(100, 3);
    let mut in_order = vec![0u8; 100];
    for &(off, len) in &plan {
        write_chunk(&mut in_order, off as usize, &content[off as usize..(off + len) as usize]);
    }
    let mut reversed = vec![0u8; 100];
    for &(off, len) in plan.iter().rev() {
        write_chunk(&mut reversed, off as usize, &content[off as usize..(off + len) as usize]);
    }
    assert_eq!(in_order, content);
    assert_eq!(reversed, content);
}

#[test]
fn write_chunk_leaves_other_bytes() {
    let mut buf = vec![9u8; 6];
    write_chunk(&mut buf, 2, &[1, 2]);
    assert_eq!(buf, vec![9, 9, 1, 2, 9, 9]);
    write_chunk(&mut buf, 6, &[]);
    assert_eq!(buf, vec![9, 9, 1, 2, 9, 9]);
}

#[test]
fn digest_file_parsing() {
    assert_eq!(parse_digest_file(b"abc123  go1.21.0.linux-amd64.tar.gz\n"), Ok(b"abc123".to_vec()));
    assert_eq!(parse_digest_file(b"ABCdef09"), Ok(b"ABCdef09".to_vec()));
    assert_eq!(parse_digest_file(b"abc123\n"), Ok(b"abc123".to_vec()));
    assert_eq!(parse_digest_file(b""), Err(Error::DigestUnavailable));
    assert_eq!(parse_digest_file(b" abc"), Err(Error::DigestUnavailable));
    assert_eq!(parse_digest_file(b"abc123x"), Err(Error::DigestUnavailable));
    assert_eq!(parse_digest_file(b"<html>"), Err(Error::DigestUnavailable));
}

#[test]
fn digest_comparison_ignores_case() {
    let o = verify(b"ABC123", b"abc123");
    assert!(o.matched);
    assert_eq!(o.computed_digest, b"ABC123".to_vec());
    assert_eq!(o.expected_digest, b"abc123".to_vec());
    assert!(digests_match(b"abc123", b"abc123"));
    assert!(!digests_match(b"abc124", b"abc123"));
    assert!(!digests_match(b"abc12", b"abc123"));
    assert!(!digests_match(b"", b"abc123"));
    assert!(digests_match(b"", b""));
}

#[test]
fn mismatch_is_never_success() {
    let bad = verify(b"abc124", b"abc123");
    assert!(!bad.matched);
    assert_eq!(conclude(Ok(()), &bad), Err(Error::IntegrityMismatch));
    let good = verify(b"ABC123", b"abc123");
    assert_eq!(conclude(Ok(()), &good), Ok(()));
    let partial = Err(Error::PartialDownload { start: 0, end: 5 });
    assert_eq!(conclude(partial, &good), partial);
}

#[test]
fn host_platforms() {
    assert_eq!(platform_for(b"linux", b"x86_64"), Ok(Platform { os: GoOs::Linux, arch: GoArch::Amd64 }));
    assert_eq!(platform_for(b"macos", b"aarch64"), Ok(Platform { os: GoOs::Darwin, arch: GoArch::Arm64 }));
    assert_eq!(platform_for(b"windows", b"x86"), Ok(Platform { os: GoOs::Windows, arch: GoArch::I386 }));
    assert_eq!(platform_for(b"freebsd", b"arm"), Ok(Platform { os: GoOs::FreeBsd, arch: GoArch::Armv6l }));
    assert_eq!(platform_for(b"plan9", b"x86_64"), Err(Error::UnsupportedPlatform));
    assert_eq!(platform_for(b"linux", b"mips"), Err(Error::UnsupportedPlatform));
}

#[test]
fn artifact_names() {
    let linux = Platform { os: GoOs::Linux, arch: GoArch::Amd64 };
    let windows = Platform { os: GoOs::Windows, arch: GoArch::I386 };
    assert_eq!(text(artifact_file_name(&v("1.21.0"), linux)), "go1.21.0.linux-amd64.tar.gz");
    assert_eq!(text(artifact_file_name(&v("1.21rc2"), windows)), "go1.21rc2.windows-386.zip");
    assert_eq!(
        text(digest_location(b"https://dl.google.com/go", &v("1.20"), linux)),
        "https://dl.google.com/go/go1.20.linux-amd64.tar.gz.sha256"
    );
}

#[test]
fn artifact_descriptor() {
    let linux = Platform { os: GoOs::Linux, arch: GoArch::Arm64 };
    let d = ArtifactDescriptor::new(b"https://go.dev/dl", v("1.21.0"), linux, b"abc123 file\n", 100).unwrap();
    assert_eq!(text(d.url.clone()), "https://go.dev/dl/go1.21.0.linux-arm64.tar.gz");
    assert_eq!(d.expected_digest, b"abc123".to_vec());
    assert_eq!(d.content_length, 100);
    assert_eq!(d.release, v("1.21.0"));
    assert_eq!(
        ArtifactDescriptor::new(b"https://go.dev/dl", v("1.21.0"), linux, b"not found", 100),
        Err(Error::DigestUnavailable)
    );
}

#[test]
fn download_plan_of_artifact() {
    let linux = Platform { os: GoOs::Linux, arch: GoArch::Amd64 };
    let d = ArtifactDescriptor::new(b"https://go.dev/dl", v("1.21.0"), linux, b"abc123", 100).unwrap();
    let p = DownloadPlan::new(&d, 3, true);
    assert_eq!(p.url, d.url);
    assert_eq!((p.total_size, p.worker_count), (100, 3));
    assert_eq!(p.boundaries, vec![(0, 33), (33, 33), (66, 34)]);
    let p = DownloadPlan::new(&d, 3, false);
    assert_eq!((p.worker_count, p.boundaries), (1, vec![(0, 100)]));
    let p = DownloadPlan::new(&d, 0, true);
    assert_eq!((p.worker_count, p.boundaries), (1, vec![(0, 100)]));
}
