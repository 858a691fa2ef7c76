use std::collections::HashSet;

use rebar::crate_data::{Crate, CrateStorage, GithubRepo, Ip};
use rebar::showcase::{Showcase, UploadError};

fn mk(user: &str, repo: &str, desc: &str, t: u64, who: u64) -> Crate {
    Crate {
        description: desc.to_string(),
        repo: CrateStorage::Github(GithubRepo { user: user.to_string(), name: repo.to_string() }),
        uploaded: t,
        uploader: Ip(who),
        votes: 0,
        voters: HashSet::new(),
    }
}

#[test]
fn update_on_empty_store_yields_empty_view() {
    let mut s = Showcase::new();
    s.update();
    assert!(s.shown_crates.is_empty());
    assert!(s.get_item(0).is_none());
    assert!(s.list_ranked().is_empty());
}

#[test]
fn ip_hash_deterministic_and_bounded() {
    let a = Ip::new("1.2.3.4");
    let b = Ip::new("1.2.3.4");
    assert_eq!(a.0, b.0);
    assert_eq!(a.0, 3221);
    assert_eq!(Ip::new("10.0.0.7").0, 10371);
    assert!(a.0 < 15000);
}

#[test]
fn canonical_name_and_key() {
    let c = mk("rust-lang", "rust", "the rust compiler", 0, 1);
    assert_eq!(c.repo.name(), "github:rust-lang:rust");
    assert_eq!(c.to_string(), "github:rust-lang:rust:the rust compiler");
}

#[test]
fn submit_assigns_sequential_indices() {
    let mut s = Showcase::new();
    assert_eq!(s.add_at(mk("u", "r1", "", 10, 1), 10), Ok(0));
    assert_eq!(s.add_at(mk("u", "r2", "", 11, 1), 11), Ok(1));
    assert_eq!(s.crates.len(), 2);
}

#[test]
fn duplicate_rejected_across_submitters() {
    let mut s = Showcase::new();
    assert_eq!(s.add_at(mk("u", "r", "same desc", 10, 1), 10), Ok(0));
    let crates_before = s.crates.len();
    let uploads_before = s.uploads.len();
    // same source and description, different submitter and time
    assert_eq!(s.add_at(mk("u", "r", "same desc", 99, 2), 99), Err(UploadError::Duplicate));
    assert_eq!(s.crates.len(), crates_before);
    assert_eq!(s.uploads.len(), uploads_before);
}

#[test]
fn different_description_is_not_a_duplicate() {
    let mut s = Showcase::new();
    assert_eq!(s.add_at(mk("u", "r", "one", 10, 1), 10), Ok(0));
    assert_eq!(s.add_at(mk("u", "r", "two", 11, 2), 11), Ok(1));
}

#[test]
fn rate_limit_hits_on_eleventh_within_hour() {
    let mut s = Showcase::new();
    // within the submitter's first window, the count climbs from zero
    let now = 100;
    for i in 0..10u64 {
        let r = s.add_at(mk("u", &format!("r{}", i), "", now, 42), now);
        assert_eq!(r, Ok(i), "submission {} should pass", i);
    }
    let r = s.add_at(mk("u", "r10", "", now, 42), now);
    assert_eq!(r, Err(UploadError::LimitReached));
    assert_eq!(s.crates.len(), 10);
}

#[test]
fn rate_limit_reseeds_after_window() {
    let mut s = Showcase::new();
    let now = 100;
    for i in 0..10u64 {
        assert_eq!(s.add_at(mk("u", &format!("r{}", i), "", now, 42), now), Ok(i));
    }
    assert_eq!(s.add_at(mk("u", "r10", "", now, 42), now), Err(UploadError::LimitReached));
    // window elapses: the same submitter may upload again, count reseeded to 3
    let later = now + 3700;
    assert_eq!(s.add_at(mk("u", "r10", "", later, 42), later), Ok(10));
    assert_eq!(s.latest_upload.get(&42), Some(&(later, 3)));
    // seven more exhaust the window again (counts 4 through 10)...
    for i in 11..18u64 {
        assert_eq!(s.add_at(mk("u", &format!("r{}", i), "", later, 42), later), Ok(i));
    }
    // ...and the next one within the window is refused
    assert_eq!(s.add_at(mk("u", "r18", "", later, 42), later), Err(UploadError::LimitReached));
}

#[test]
fn vote_is_idempotent_per_caller() {
    let mut s = Showcase::new();
    assert_eq!(s.add_at(mk("u", "r", "", 10, 1), 10), Ok(0));
    s.vote(0, Ip(5));
    s.vote(0, Ip(5));
    assert_eq!(s.crates[0].votes, 1);
    s.vote(0, Ip(6));
    assert_eq!(s.crates[0].votes, 2);
}

#[test]
fn vote_out_of_range_is_a_silent_noop() {
    let mut s = Showcase::new();
    s.vote(42, Ip(5));
    assert_eq!(s.crates.len(), 0);
    // the rejected vote still moved the recompute trigger counter
    assert_eq!(s.additions, 1);
    s.vote(43, Ip(5));
    // the second bump crossed the threshold and recomputing reset it
    assert_eq!(s.additions, 0);
}

#[test]
fn update_is_idempotent() {
    let mut s = Showcase::new();
    assert_eq!(s.add_at(mk("u", "r1", "", 10, 1), 10), Ok(0));
    assert_eq!(s.add_at(mk("u", "r2", "", 30, 1), 30), Ok(1));
    s.vote(0, Ip(5));
    s.update();
    let first = s.shown_crates.clone();
    s.update();
    assert_eq!(s.shown_crates, first);
}

#[test]
fn retention_window_keeps_latest_500() {
    let mut s = Showcase::new();
    for i in 0..600u64 {
        // spaced further apart than the rate window, so one submitter suffices
        let t = i * 4000;
        assert_eq!(s.add_at(mk("u", &format!("r{}", i), "", t, 42), t), Ok(i));
        assert!(s.shown_crates.len() <= 500);
    }
    assert_eq!(s.shown_crates.len(), 500);
    // equal votes: pure recency, so the newest 500 in descending time order
    let expected: Vec<u64> = (100..600).rev().collect();
    assert_eq!(s.shown_crates, expected);
}

#[test]
fn ties_break_towards_the_older_index() {
    let mut s = Showcase::new();
    assert_eq!(s.add_at(mk("u", "r1", "", 10, 1), 10), Ok(0));
    assert_eq!(s.add_at(mk("u", "r2", "", 10, 1), 10), Ok(1));
    s.update();
    assert_eq!(s.shown_crates, vec![0, 1]);
}

#[test]
fn recency_beats_votes_until_enough_votes() {
    // submit A (t = 1000) and B (t = 2000): B ranks first on recency
    let mut s = Showcase::new();
    assert_eq!(s.add_at(mk("u", "a", "", 1000, 1), 1000), Ok(0));
    assert_eq!(s.add_at(mk("u", "b", "", 2000, 2), 2000), Ok(1));
    s.update();
    assert_eq!(s.shown_crates, vec![1, 0]);
    // twenty distinct voters on A outweigh B's one-thousand-second head start
    for voter in 0..20u64 {
        s.vote(0, Ip(voter));
    }
    assert_eq!(s.crates[0].votes, 20);
    s.update();
    assert_eq!(s.shown_crates, vec![0, 1]);
}

#[test]
fn get_item_absent_on_unassigned_index() {
    let mut s = Showcase::new();
    assert_eq!(s.add_at(mk("u", "r", "d", 10, 1), 10), Ok(0));
    assert!(s.get_item(0).is_some());
    assert_eq!(s.get_item(0).unwrap().description, "d");
    assert!(s.get_item(1).is_none());
}

#[test]
fn list_ranked_snapshots_the_view() {
    let mut s = Showcase::new();
    assert_eq!(s.add_at(mk("u", "r1", "", 10, 1), 10), Ok(0));
    assert_eq!(s.add_at(mk("u", "r2", "", 30, 1), 30), Ok(1));
    let snapshot = s.list_ranked();
    assert_eq!(snapshot, s.shown_crates);
    assert_eq!(snapshot, vec![1, 0]);
}

#[test]
fn add_with_wall_clock_accepts_fresh_submitter() {
    // a submitter with no ledger entry is allowed at every current time
    let mut s = Showcase::new();
    assert_eq!(s.add(mk("u", "r", "", 10, 1)), Ok(0));
    assert_eq!(s.add(mk("u", "r", "", 10, 2)), Err(UploadError::Duplicate));
}
