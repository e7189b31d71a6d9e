//! Eligibility filtering: cut the raw catalog down to the candidates worth
//! probing.
//!
//! A record is eligible when it speaks the required transport protocol,
//! supports the required internet protocol version, is marked active, and
//! carries a reliability score.  The four predicates are independent of one
//! another, so the order they are applied in cannot change the outcome; the
//! filter is stable, keeping catalog order, and an empty result is an empty
//! candidate set, not an error.

use vstd::prelude::*;
use crate::catalog::Config;
use crate::catalog::IpVersion;
use crate::catalog::MirrorRecord;

verus! {

/// The record speaks the required transport protocol.
pub open spec fn protocol_ok(r: MirrorRecord, cfg: Config) -> bool {
    r.protocol == cfg.protocol
}

/// The record supports the required internet protocol version.
pub open spec fn ip_ok(r: MirrorRecord, cfg: Config) -> bool {
    match cfg.ip {
        IpVersion::V4 => r.ipv4,
        IpVersion::V6 => r.ipv6,
    }
}

/// The record is marked active by the catalog.
pub open spec fn active_ok(r: MirrorRecord) -> bool {
    r.active
}

/// The record carries a reliability score.
pub open spec fn score_present(r: MirrorRecord) -> bool {
    r.reliability_milli is Some
}

/// All four eligibility predicates together.
pub open spec fn eligible(r: MirrorRecord, cfg: Config) -> bool {
    protocol_ok(r, cfg) && ip_ok(r, cfg) && active_ok(r) && score_present(r)
}

/// The four eligibility predicates are independent: conjoining them in any
/// other order selects the identical candidate set.
pub proof fn lemma_eligible_order_insensitive(r: MirrorRecord, cfg: Config)
    ensures
        eligible(r, cfg) <==> (score_present(r) && active_ok(r) && ip_ok(r, cfg) && protocol_ok(
            r,
            cfg,
        )),
        eligible(r, cfg) <==> (ip_ok(r, cfg) && score_present(r) && protocol_ok(r, cfg)
            && active_ok(r)),
{
}

/// A candidate selected for probing: its position in the catalog and its
/// reliability score in thousandths.
#[derive(Clone, Copy, Debug, PartialEq, Eq, Structural)]
pub struct Candidate {
    pub pos: usize,
    pub reliability_milli: u64,
}

/// The candidate set of the first `n` catalog records: position and
/// reliability of each eligible record, in catalog order.
pub open spec fn candidates_spec(catalog: Seq<MirrorRecord>, cfg: Config, n: int) -> Seq<Candidate>
    decreases n,
{
    if n <= 0 {
        Seq::empty()
    } else {
        let pre = candidates_spec(catalog, cfg, n - 1);
        if eligible(catalog[n - 1], cfg) {
            pre.push(
                Candidate {
                    pos: (n - 1) as usize,
                    reliability_milli: catalog[n - 1].reliability_milli->0,
                },
            )
        } else {
            pre
        }
    }
}

fn eligible_exec(r: &MirrorRecord, cfg: &Config) -> (b: bool)
    ensures
        b == eligible(*r, *cfg),
{
    let ip = match cfg.ip {
        IpVersion::V4 => r.ipv4,
        IpVersion::V6 => r.ipv6,
    };
    r.protocol == cfg.protocol && ip && r.active && r.reliability_milli.is_some()
}

/// Stable eligibility filter over the catalog.
///
/// The output lists, in catalog order, the position and reliability score of
/// exactly the eligible records: every listed position is an eligible record
/// (soundness), positions strictly increase (the relative catalog order is
/// kept and nothing is listed twice), and every eligible position is listed
/// (completeness).
pub fn filter_catalog(catalog: &Vec<MirrorRecord>, cfg: &Config) -> (out: Vec<Candidate>)
    ensures
        out@ == candidates_spec(catalog@, *cfg, catalog@.len() as int),
        forall|k: int|
            0 <= k < out@.len() ==> (#[trigger] out@[k]).pos < catalog@.len() && eligible(
                catalog@[out@[k].pos as int],
                *cfg,
            ) && catalog@[out@[k].pos as int].reliability_milli == Some(out@[k].reliability_milli),
        forall|k1: int, k2: int|
            0 <= k1 < k2 < out@.len() ==> (#[trigger] out@[k1]).pos < (#[trigger] out@[k2]).pos,
        forall|i: int|
            0 <= i < catalog@.len() && eligible(#[trigger] catalog@[i], *cfg) ==> exists|k: int|
                0 <= k < out@.len() && (#[trigger] out@[k]).pos == i,
{
    let mut out: Vec<Candidate> = Vec::new();
    let n: usize = catalog.len();
    let mut i: usize = 0;
    while i < n
        invariant
            n == catalog@.len(),
            0 <= i <= n,
            out@ == candidates_spec(catalog@, *cfg, i as int),
            forall|k: int|
                0 <= k < out@.len() ==> (#[trigger] out@[k]).pos < i && eligible(
                    catalog@[out@[k].pos as int],
                    *cfg,
                ) && catalog@[out@[k].pos as int].reliability_milli == Some(
                    out@[k].reliability_milli,
                ),
            forall|k1: int, k2: int|
                0 <= k1 < k2 < out@.len() ==> (#[trigger] out@[k1]).pos < (
                #[trigger] out@[k2]).pos,
            forall|i2: int|
                0 <= i2 < i && eligible(#[trigger] catalog@[i2], *cfg) ==> exists|k: int|
                    0 <= k < out@.len() && (#[trigger] out@[k]).pos == i2,
        decreases n - i,
    {
        let ghost pre = out@;
        let rec = &catalog[i];
        if eligible_exec(rec, cfg) {
            let rel = rec.reliability_milli.unwrap();
            out.push(Candidate { pos: i, reliability_milli: rel });
            proof {
                assert forall|i2: int| 0 <= i2 <= i && eligible(
                    #[trigger] catalog@[i2],
                    *cfg,
                ) implies exists|k: int| 0 <= k < out@.len() && (#[trigger] out@[k]).pos == i2 by {
                    if i2 < i {
                        let k = choose|k: int| 0 <= k < pre.len() && (#[trigger] pre[k]).pos == i2;
                        assert(out@[k].pos == i2);
                    } else {
                        assert(out@[out@.len() - 1].pos == i2);
                    }
                }
            }
        }
        i = i + 1;
    }
    out
}

} // verus!
