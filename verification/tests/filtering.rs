//! The eligibility filter: soundness, completeness, stability, degenerate
//! cases.

use mirror_rank::{filter_catalog, Config, IpVersion, MirrorRecord, Protocol};

fn record(
    url: &str,
    protocol: Protocol,
    active: bool,
    reliability_milli: Option<u64>,
    ipv4: bool,
    ipv6: bool,
) -> MirrorRecord {
    MirrorRecord {
        url: url.to_string(),
        protocol,
        active,
        reliability_milli,
        ipv4,
        ipv6,
        country: "XX".to_string(),
    }
}

fn default_config() -> Config {
    Config::default()
}

#[test]
fn keeps_only_fully_eligible_records_in_order() {
    let catalog = vec![
        record("https://a.example/", Protocol::Https, true, Some(1_000), true, false),
        record("http://b.example/", Protocol::Http, true, Some(1_000), true, false),
        record("https://c.example/", Protocol::Https, false, Some(1_000), true, false),
        record("https://d.example/", Protocol::Https, true, None, true, false),
        record("https://e.example/", Protocol::Https, true, Some(2_000), false, true),
        record("https://f.example/", Protocol::Https, true, Some(3_000), true, true),
    ];
    let out = filter_catalog(&catalog, &default_config());
    let positions: Vec<usize> = out.iter().map(|c| c.pos).collect();
    assert_eq!(positions, vec![0, 5]);
    assert_eq!(out[0].reliability_milli, 1_000);
    assert_eq!(out[1].reliability_milli, 3_000);
}

#[test]
fn respects_required_ip_version() {
    let catalog = vec![
        record("https://a.example/", Protocol::Https, true, Some(1_000), true, false),
        record("https://b.example/", Protocol::Https, true, Some(1_000), false, true),
    ];
    let mut cfg = default_config();
    cfg.ip = IpVersion::V6;
    let out = filter_catalog(&catalog, &cfg);
    assert_eq!(out.len(), 1);
    assert_eq!(out[0].pos, 1);
}

#[test]
fn respects_required_protocol() {
    let catalog = vec![
        record("rsync://a.example/", Protocol::Rsync, true, Some(1_000), true, false),
        record("ftp://b.example/", Protocol::Ftp, true, Some(1_000), true, false),
    ];
    let mut cfg = default_config();
    cfg.protocol = Protocol::Rsync;
    let out = filter_catalog(&catalog, &cfg);
    assert_eq!(out.len(), 1);
    assert_eq!(out[0].pos, 0);
}

#[test]
fn empty_catalog_yields_empty_candidate_set() {
    let catalog: Vec<MirrorRecord> = Vec::new();
    let out = filter_catalog(&catalog, &default_config());
    assert!(out.is_empty());
}

#[test]
fn nothing_eligible_yields_empty_candidate_set() {
    let catalog = vec![
        record("https://a.example/", Protocol::Https, false, Some(1_000), true, false),
        record("https://b.example/", Protocol::Https, true, None, true, false),
    ];
    let out = filter_catalog(&catalog, &default_config());
    assert!(out.is_empty());
}
