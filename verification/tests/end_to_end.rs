//! The whole pipeline: filter, score the probe outcomes, rank, render.

use mirror_rank::{
    filter_catalog, mirror_line, probe_target, rank_mirrors, Config, MirrorRecord, ProbeOutcome,
    Protocol,
};

fn eligible_record(url: &str, reliability_milli: u64) -> MirrorRecord {
    MirrorRecord {
        url: url.to_string(),
        protocol: Protocol::Https,
        active: true,
        reliability_milli: Some(reliability_milli),
        ipv4: true,
        ipv6: false,
        country: "XX".to_string(),
    }
}

#[test]
fn probe_target_appends_the_resource_once() {
    assert_eq!(
        probe_target("https://a.example/"),
        "https://a.example/core/os/x86_64/core.db.tar.gz"
    );
}

#[test]
fn mirror_line_uses_the_path_template() {
    assert_eq!(mirror_line("https://a.example/"), "Server = https://a.example/$repo/os/$arch");
}

#[test]
fn three_candidates_only_the_most_reliable_survives() {
    // reliability 10.0, 50.0 and 90.0; every probe takes half a second
    let catalog = vec![
        eligible_record("https://a.example/", 10_000),
        eligible_record("https://b.example/", 50_000),
        eligible_record("https://c.example/", 90_000),
    ];
    let cfg = Config::default();
    let cands = filter_catalog(&catalog, &cfg);
    assert_eq!(cands.len(), 3);
    let outcomes = vec![
        ProbeOutcome::Latency(500),
        ProbeOutcome::Latency(500),
        ProbeOutcome::Latency(500),
    ];
    let out = rank_mirrors(&catalog, &cands, &outcomes, &cfg);
    // the lower the reliability number, the higher the fitness; at half a
    // second, reliability 50.0 and 90.0 both fall just below the 0.5
    // threshold and are dropped
    assert_eq!(out.len(), 1);
    assert_eq!(out[0].line, "Server = https://a.example/$repo/os/$arch");
    assert_eq!(out[0].fitness, 68_625_156_119_954);
}

#[test]
fn failed_probe_never_appears_and_leaves_the_rest_alone() {
    let catalog = vec![
        eligible_record("https://a.example/", 10_000),
        eligible_record("https://b.example/", 20_000),
        eligible_record("https://c.example/", 30_000),
    ];
    let cfg = Config::default();
    let cands = filter_catalog(&catalog, &cfg);
    let all_good = vec![
        ProbeOutcome::Latency(500),
        ProbeOutcome::Latency(500),
        ProbeOutcome::Latency(500),
    ];
    let with_timeout = vec![
        ProbeOutcome::Latency(500),
        ProbeOutcome::Failed,
        ProbeOutcome::Latency(500),
    ];
    let full = rank_mirrors(&catalog, &cands, &all_good, &cfg);
    let partial = rank_mirrors(&catalog, &cands, &with_timeout, &cfg);
    assert!(partial.iter().all(|m| !m.line.contains("b.example")));
    assert_eq!(partial.len(), full.len() - 1);
    // the other candidates keep their lines, fitness and relative order
    let full_rest: Vec<_> =
        full.iter().filter(|m| !m.line.contains("b.example")).collect();
    assert_eq!(partial.len(), full_rest.len());
    for (p, f) in partial.iter().zip(full_rest.iter()) {
        assert_eq!(p.line, f.line);
        assert_eq!(p.fitness, f.fitness);
    }
}

#[test]
fn empty_candidate_set_produces_empty_output() {
    let catalog: Vec<MirrorRecord> = Vec::new();
    let cfg = Config::default();
    let cands = filter_catalog(&catalog, &cfg);
    let outcomes: Vec<ProbeOutcome> = Vec::new();
    let out = rank_mirrors(&catalog, &cands, &outcomes, &cfg);
    assert!(out.is_empty());
}

#[test]
fn same_outcomes_rank_identically_twice() {
    let catalog = vec![
        eligible_record("https://a.example/", 5_000),
        eligible_record("https://b.example/", 4_000),
    ];
    let cfg = Config::default();
    let cands = filter_catalog(&catalog, &cfg);
    let outcomes = vec![ProbeOutcome::Latency(120), ProbeOutcome::Latency(80)];
    let first = rank_mirrors(&catalog, &cands, &outcomes, &cfg);
    let second = rank_mirrors(&catalog, &cands, &outcomes, &cfg);
    assert_eq!(first.len(), second.len());
    for (a, b) in first.iter().zip(second.iter()) {
        assert_eq!(a.line, b.line);
        assert_eq!(a.fitness, b.fitness);
    }
    // b.example has the lower reliability number and the faster probe
    assert_eq!(first[0].line, "Server = https://b.example/$repo/os/$arch");
}
