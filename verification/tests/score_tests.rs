use std::collections::HashSet;

use rebar::crate_data::{Crate, CrateStorage, GithubRepo, Ip};

fn mk(user: &str, repo: &str, desc: &str, t: u64, who: u64, votes: u32) -> Crate {
    Crate {
        description: desc.to_string(),
        repo: CrateStorage::Github(GithubRepo { user: user.to_string(), name: repo.to_string() }),
        uploaded: t,
        uploader: Ip(who),
        votes,
        voters: HashSet::new(),
    }
}

const SCALE: u128 = 1 << 32;
const VOTE_WEIGHT: u128 = 2495;

#[test]
fn score_zero_votes_is_pure_recency() {
    let c = mk("a", "b", "", 5, 1, 0);
    assert_eq!(c.get_score(), 5 * SCALE);
}

#[test]
fn score_formula_on_powers_of_two() {
    // log2(2) == 1, log2(4) == 2: one and two weight units on top of recency
    let one = mk("a", "b", "", 0, 1, 1);
    assert_eq!(one.get_score(), VOTE_WEIGHT * SCALE);
    let three = mk("a", "b", "", 10, 1, 3);
    assert_eq!(three.get_score(), 10 * SCALE + 2 * VOTE_WEIGHT * SCALE);
}

#[test]
fn score_interpolates_between_powers() {
    // 21 votes + 1 sits between 16 and 32: log2 is 4 + 5/16 in fixed point
    let c = mk("a", "b", "", 0, 1, 20);
    let lg = 4 * SCALE + 5 * (SCALE / 16);
    assert_eq!(c.get_score(), VOTE_WEIGHT * lg);
}

#[test]
fn score_saturated_vote_count() {
    // u32::MAX votes + 1 is exactly 2^32: log2 is 32
    let c = mk("a", "b", "", 0, 1, u32::MAX);
    assert_eq!(c.get_score(), VOTE_WEIGHT * 32 * SCALE);
}

#[test]
fn score_strictly_increases_in_votes() {
    let mut last = mk("a", "b", "", 1234, 1, 0).get_score();
    for v in 1..2000u32 {
        let s = mk("a", "b", "", 1234, 1, v).get_score();
        assert!(s > last, "score must strictly grow with votes (v = {})", v);
        last = s;
    }
}

#[test]
fn score_strictly_increases_in_time() {
    let early = mk("a", "b", "", 1000, 1, 7).get_score();
    let late = mk("a", "b", "", 1001, 1, 7).get_score();
    assert!(late > early);
}
