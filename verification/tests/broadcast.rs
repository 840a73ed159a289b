use qw_core::broadcast::{advise_scored, relay_gate, HopRatingCache, RelayAdvice, RelayLimits, ScoreVerdict};
use qw_core::events::HeldEvent;

const DAY: u64 = 86_400;

/// A placeholder rating event: the cache does not inspect it.
fn rating(id: &str) -> HeldEvent {
    HeldEvent { id: id.to_string(), created_at: 0, recipient: None, verified: true, encoded: "{}".to_string() }
}

/// The proposal type's limits: three hops, a week, 8 KiB, fan-out three.
fn proposal() -> RelayLimits {
    RelayLimits { max_hops: 3, max_age_secs: 7 * DAY, max_bytes: 8 * 1024, fanout: 3 }
}

#[test]
fn cache_returns_a_rating_until_it_expires() {
    let mut cache = HopRatingCache::new();
    cache.store("orig", "it/backend", rating("x"), 500);
    assert!(cache.valid("orig", "it/backend", 499).is_some());
    assert!(cache.valid("orig", "it/backend", 500).is_none());
    assert!(cache.valid("orig", "it/frontend", 100).is_none());
}

#[test]
fn storing_again_replaces_the_rating_for_that_key_only() {
    let mut cache = HopRatingCache::new();
    cache.store("orig", "it/backend", rating("first"), 500);
    cache.store("orig", "it/frontend", rating("other"), 900);
    cache.store("orig", "it/backend", rating("second"), 800);
    assert_eq!(cache.valid("orig", "it/backend", 600).map(|e| e.id.as_str()), Some("second"));
    assert_eq!(cache.valid("orig", "it/frontend", 600).map(|e| e.id.as_str()), Some("other"));
}

#[test]
fn pruning_drops_only_what_has_expired() {
    let mut cache = HopRatingCache::new();
    cache.store("a", "d", rating("old"), 100);
    cache.store("b", "d", rating("new"), 1_000);
    cache.prune(100);
    assert!(cache.valid("a", "d", 0).is_none(), "expired entries are gone even for an earlier clock");
    assert_eq!(cache.valid("b", "d", 0).map(|e| e.id.as_str()), Some("new"));
}

#[test]
fn the_gate_drops_and_holds_before_any_score() {
    let pol = proposal();
    assert_eq!(relay_gate(0, 10, 100, 3, &pol, 20), Some(RelayAdvice::Drop { reason: "past expires_at" }));
    assert_eq!(
        relay_gate(0, 10_000, 9_000, 3, &pol, 5),
        Some(RelayAdvice::Drop { reason: "over max_bytes for this type" })
    );
    assert_eq!(
        relay_gate(0, 10_000_000, 100, 3, &pol, 8 * DAY),
        Some(RelayAdvice::Drop { reason: "older than max_age for this type" })
    );
    assert_eq!(
        relay_gate(0, 10_000_000, 100, 4, &pol, 100),
        Some(RelayAdvice::Hold { reason: "at hop limit for this type" })
    );
    assert_eq!(relay_gate(0, 10_000_000, 100, 3, &pol, 100), None);
    assert_eq!(relay_gate(0, 10_000_000, 8 * 1024, 1, &pol, 7 * DAY), None, "limits are inclusive");
}

#[test]
fn only_a_score_that_clears_the_floor_is_relayed() {
    assert_eq!(advise_scored(ScoreVerdict::Clears, 3), RelayAdvice::Relay { fanout: 3 });
    assert_eq!(
        advise_scored(ScoreVerdict::BelowFloor, 3),
        RelayAdvice::Hold { reason: "below the score floor for this type" }
    );
    assert_eq!(advise_scored(ScoreVerdict::NoRating, 3), RelayAdvice::Hold { reason: "no valid hop rating yet" });
    assert_eq!(advise_scored(ScoreVerdict::UnknownRisk, 3), RelayAdvice::Hold { reason: "unknown-risk on the path" });
}
