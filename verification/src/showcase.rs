//! The showcase: the collection of uploaded crates, its ranked view, and the
//! anti-abuse gates (per-submitter rate limiting, content deduplication) that
//! guard every mutation.

use vstd::prelude::*;
use std::collections::HashMap;

use crate::crate_data::{Crate, Ip, voted, ID_SPACE};

verus! {

broadcast use vstd::std_specs::hash::group_hash_axioms, vstd::set::group_set_axioms;

/// Retention window: at most this many of the most recently uploaded crates
/// are eligible for the ranked view.
pub const RETENTION: usize = 500;

/// Recompute trigger: the ranked view is rebuilt once the addition counter
/// reaches this threshold.
pub const UPDATE_THRESHOLD: u16 = 2;

/// How much one successful upload moves the addition counter; with the
/// threshold above, every upload triggers a recompute.
pub const SUBMIT_WEIGHT: u16 = 5;

/// How many uploads a submitter may make within one window before being
/// rate limited.
pub const RATE_LIMIT: u32 = 10;

/// The upload count a submitter restarts with after the window elapsed.
pub const RESEED: u32 = 3;

/// The rate-limit window, in seconds.
pub const ONE_HOUR: u64 = 3600;

/// Ranking order on item indices: `a` ranks before `b` when `a`'s score is
/// higher, ties broken towards the older (lower) index.  A strict total
/// order on distinct valid indices; the tie rule makes the sort
/// deterministic, which tests rely on.
pub open spec fn rank_before(crates: Seq<Crate>, a: u64, b: u64) -> bool
    recommends
        a < crates.len(),
        b < crates.len(),
{
    let sa = crates[a as int].score();
    let sb = crates[b as int].score();
    sa > sb || (sa == sb && a < b)
}

/// `s` is sorted by the ranking order: highest score first.
pub open spec fn ranked_sorted(crates: Seq<Crate>, s: Seq<u64>) -> bool {
    forall|i: int, j: int| 0 <= i < j < s.len() ==> rank_before(crates, s[i], s[j])
}

/// Insert index `x` into the rank-sorted sequence `s`, before the first
/// entry it outranks.
pub open spec fn spec_insert_ranked(crates: Seq<Crate>, s: Seq<u64>, x: u64) -> Seq<u64>
    decreases s.len(),
{
    if s.len() == 0 {
        seq![x]
    } else if rank_before(crates, x, s[0]) {
        seq![x] + s
    } else {
        seq![s[0]] + spec_insert_ranked(crates, s.drop_first(), x)
    }
}

/// Sort a sequence of item indices by the ranking order, by repeated
/// insertion.
pub open spec fn spec_sort_ranked(crates: Seq<Crate>, s: Seq<u64>) -> Seq<u64>
    decreases s.len(),
{
    if s.len() == 0 {
        Seq::empty()
    } else {
        spec_insert_ranked(crates, spec_sort_ranked(crates, s.drop_last()), s.last())
    }
}

/// The retention window of `crates`: the indices of the most recent
/// `min(len, RETENTION)` items, in increasing order.
pub open spec fn spec_window(crates: Seq<Crate>) -> Seq<u64> {
    let lo = if crates.len() > RETENTION {
        crates.len() - RETENTION
    } else {
        0
    };
    Seq::new((crates.len() - lo) as nat, |i: int| (lo + i) as u64)
}

/// The ranked view determined by `crates`: the retention window sorted by
/// descending score, ties towards the lower index.
pub open spec fn spec_ranked(crates: Seq<Crate>) -> Seq<u64> {
    spec_sort_ranked(crates, spec_window(crates))
}

proof fn lemma_insert_ranked_elems(crates: Seq<Crate>, s: Seq<u64>, x: u64)
    ensures
        spec_insert_ranked(crates, s, x).len() == s.len() + 1,
        spec_insert_ranked(crates, s, x).contains(x),
        forall|e: u64|
            spec_insert_ranked(crates, s, x).contains(e) <==> (s.contains(e) || e == x),
    decreases s.len(),
{
    let res = spec_insert_ranked(crates, s, x);
    if s.len() == 0 {
        assert(res[0] == x);
        assert(forall|e: u64| s.contains(e) || e == x ==> res.contains(e));
    } else if rank_before(crates, x, s[0]) {
        assert(res == seq![x] + s);
        assert(res[0] == x);
        assert forall|e: u64| res.contains(e) implies (s.contains(e) || e == x) by {
            let i = choose|i: int| 0 <= i < res.len() && res[i] == e;
            if i > 0 {
                assert(s[i - 1] == e);
            }
        }
        assert forall|e: u64| s.contains(e) || e == x implies res.contains(e) by {
            if e == x {
                assert(res[0] == e);
            } else {
                let i = choose|i: int| 0 <= i < s.len() && s[i] == e;
                assert(res[i + 1] == e);
            }
        }
    } else {
        let inner = spec_insert_ranked(crates, s.drop_first(), x);
        lemma_insert_ranked_elems(crates, s.drop_first(), x);
        assert(res == seq![s[0]] + inner);
        assert forall|e: u64| res.contains(e) implies (s.contains(e) || e == x) by {
            let i = choose|i: int| 0 <= i < res.len() && res[i] == e;
            if i == 0 {
                assert(s[0] == e);
            } else {
                assert(inner[i - 1] == e);
                assert(inner.contains(e));
                if s.drop_first().contains(e) {
                    let j = choose|j: int| 0 <= j < s.drop_first().len() && s.drop_first()[j] == e;
                    assert(s[j + 1] == e);
                }
            }
        }
        assert forall|e: u64| s.contains(e) || e == x implies res.contains(e) by {
            if e == x {
                let j = choose|j: int| 0 <= j < inner.len() && inner[j] == x;
                assert(res[j + 1] == e);
            } else {
                let i = choose|i: int| 0 <= i < s.len() && s[i] == e;
                if i == 0 {
                    assert(res[0] == e);
                } else {
                    assert(s.drop_first()[i - 1] == e);
                    assert(s.drop_first().contains(e));
                    assert(inner.contains(e));
                    let j = choose|j: int| 0 <= j < inner.len() && inner[j] == e;
                    assert(res[j + 1] == e);
                }
            }
        }
        let j = choose|j: int| 0 <= j < inner.len() && inner[j] == x;
        assert(res[j + 1] == x);
    }
}

proof fn lemma_insert_ranked_sorted(crates: Seq<Crate>, s: Seq<u64>, x: u64)
    requires
        ranked_sorted(crates, s),
        !s.contains(x),
    ensures
        ranked_sorted(crates, spec_insert_ranked(crates, s, x)),
    decreases s.len(),
{
    let res = spec_insert_ranked(crates, s, x);
    lemma_insert_ranked_elems(crates, s, x);
    if s.len() == 0 {
    } else if rank_before(crates, x, s[0]) {
        assert(res == seq![x] + s);
        assert forall|i: int, j: int| 0 <= i < j < res.len() implies rank_before(
            crates,
            res[i],
            res[j],
        ) by {
            if i == 0 {
                if j == 1 {
                    assert(res[j] == s[0]);
                } else {
                    assert(res[j] == s[j - 1]);
                    assert(rank_before(crates, s[0], s[j - 1]));
                }
            } else {
                assert(rank_before(crates, s[i - 1], s[j - 1]));
            }
        }
    } else {
        let inner = spec_insert_ranked(crates, s.drop_first(), x);
        assert(forall|i: int, j: int|
            0 <= i < j < s.drop_first().len() ==> rank_before(
                crates,
                s.drop_first()[i],
                s.drop_first()[j],
            ));
        assert(!s.drop_first().contains(x)) by {
            if s.drop_first().contains(x) {
                let j = choose|j: int| 0 <= j < s.drop_first().len() && s.drop_first()[j] == x;
                assert(s[j + 1] == x);
            }
        }
        lemma_insert_ranked_sorted(crates, s.drop_first(), x);
        lemma_insert_ranked_elems(crates, s.drop_first(), x);
        assert(res == seq![s[0]] + inner);
        // s[0] is not x, and x does not rank before s[0], so s[0] ranks before x;
        // s[0] ranks before every later element of s as well.
        assert(s[0] != x);
        assert(rank_before(crates, s[0], x));
        assert forall|i: int, j: int| 0 <= i < j < res.len() implies rank_before(
            crates,
            res[i],
            res[j],
        ) by {
            if i == 0 {
                let e = res[j];
                assert(inner[j - 1] == e);
                assert(inner.contains(e));
                if e == x {
                } else {
                    assert(s.drop_first().contains(e));
                    let k = choose|k: int|
                        0 <= k < s.drop_first().len() && s.drop_first()[k] == e;
                    assert(s[k + 1] == e);
                    assert(rank_before(crates, s[0], s[k + 1]));
                }
            } else {
                assert(rank_before(crates, inner[i - 1], inner[j - 1]));
            }
        }
    }
}

proof fn lemma_insert_ranked_nodup(crates: Seq<Crate>, s: Seq<u64>, x: u64)
    requires
        s.no_duplicates(),
        !s.contains(x),
    ensures
        spec_insert_ranked(crates, s, x).no_duplicates(),
    decreases s.len(),
{
    let res = spec_insert_ranked(crates, s, x);
    lemma_insert_ranked_elems(crates, s, x);
    if s.len() == 0 {
    } else if rank_before(crates, x, s[0]) {
        assert(res == seq![x] + s);
        assert forall|i: int, j: int| 0 <= i < j < res.len() implies res[i] != res[j] by {
            if i == 0 {
                assert(res[j] == s[j - 1]);
                assert(s.contains(s[j - 1]));
            } else {
                assert(res[i] == s[i - 1] && res[j] == s[j - 1]);
            }
        }
    } else {
        let inner = spec_insert_ranked(crates, s.drop_first(), x);
        assert(!s.drop_first().contains(x)) by {
            if s.drop_first().contains(x) {
                let j = choose|j: int| 0 <= j < s.drop_first().len() && s.drop_first()[j] == x;
                assert(s[j + 1] == x);
            }
        }
        assert(s.drop_first().no_duplicates());
        lemma_insert_ranked_nodup(crates, s.drop_first(), x);
        lemma_insert_ranked_elems(crates, s.drop_first(), x);
        assert(res == seq![s[0]] + inner);
        assert forall|i: int, j: int| 0 <= i < j < res.len() implies res[i] != res[j] by {
            if i == 0 {
                let e = res[j];
                assert(inner[j - 1] == e);
                assert(inner.contains(e));
                if e == x {
                    assert(s[0] != x);
                } else {
                    assert(s.drop_first().contains(e));
                    let k = choose|k: int|
                        0 <= k < s.drop_first().len() && s.drop_first()[k] == e;
                    assert(s[k + 1] == e);
                }
            } else {
                assert(res[i] == inner[i - 1] && res[j] == inner[j - 1]);
            }
        }
    }
}

proof fn lemma_sort_ranked_props(crates: Seq<Crate>, s: Seq<u64>)
    requires
        s.no_duplicates(),
    ensures
        spec_sort_ranked(crates, s).len() == s.len(),
        forall|e: u64| spec_sort_ranked(crates, s).contains(e) <==> s.contains(e),
        spec_sort_ranked(crates, s).no_duplicates(),
        ranked_sorted(crates, spec_sort_ranked(crates, s)),
    decreases s.len(),
{
    if s.len() > 0 {
        let rest = s.drop_last();
        let x = s.last();
        assert(rest.no_duplicates());
        lemma_sort_ranked_props(crates, rest);
        let sorted_rest = spec_sort_ranked(crates, rest);
        assert(!rest.contains(x)) by {
            if rest.contains(x) {
                let j = choose|j: int| 0 <= j < rest.len() && rest[j] == x;
                assert(s[j] == x && s[s.len() - 1] == x);
            }
        }
        assert(!sorted_rest.contains(x));
        lemma_insert_ranked_elems(crates, sorted_rest, x);
        lemma_insert_ranked_sorted(crates, sorted_rest, x);
        lemma_insert_ranked_nodup(crates, sorted_rest, x);
        assert forall|e: u64| spec_sort_ranked(crates, s).contains(e) implies s.contains(e) by {
            if e != x && rest.contains(e) {
                let j = choose|j: int| 0 <= j < rest.len() && rest[j] == e;
                assert(s[j] == e);
            }
        }
        assert forall|e: u64| s.contains(e) implies spec_sort_ranked(crates, s).contains(e) by {
            let j = choose|j: int| 0 <= j < s.len() && s[j] == e;
            if j < s.len() - 1 {
                assert(rest[j] == e);
                assert(rest.contains(e));
            }
        }
    }
}

proof fn lemma_window_props(crates: Seq<Crate>)
    requires
        crates.len() <= 0xffff_ffff_ffff_ffff,
    ensures
        spec_window(crates).len() <= RETENTION,
        spec_window(crates).len() <= crates.len(),
        crates.len() >= RETENTION ==> spec_window(crates).len() == RETENTION,
        spec_window(crates).no_duplicates(),
        forall|e: u64|
            spec_window(crates).contains(e) <==> (crates.len() - spec_window(crates).len() <= e
                < crates.len()),
{
    let w = spec_window(crates);
    let lo = crates.len() - w.len();
    assert forall|e: u64| w.contains(e) implies (lo <= e < crates.len()) by {
        let i = choose|i: int| 0 <= i < w.len() && w[i] == e;
    }
    assert forall|e: u64| lo <= e < crates.len() implies w.contains(e) by {
        assert(w[e - lo] == e);
    }
}

/// What the ranked view determined by any item collection looks like: it
/// never exceeds `RETENTION` entries, it holds exactly the indices of the
/// retention window (each once), and it is sorted by descending score with
/// ties towards the lower index.
pub proof fn lemma_ranked_props(crates: Seq<Crate>)
    requires
        crates.len() <= 0xffff_ffff_ffff_ffff,
    ensures
        spec_ranked(crates).len() == spec_window(crates).len(),
        spec_ranked(crates).len() <= RETENTION,
        spec_ranked(crates).len() <= crates.len(),
        crates.len() >= RETENTION ==> spec_ranked(crates).len() == RETENTION,
        spec_ranked(crates).no_duplicates(),
        forall|e: u64|
            spec_ranked(crates).contains(e) <==> (crates.len() - spec_ranked(crates).len() <= e
                < crates.len()),
        ranked_sorted(crates, spec_ranked(crates)),
{
    lemma_window_props(crates);
    lemma_sort_ranked_props(crates, spec_window(crates));
    assert forall|e: u64|
        spec_ranked(crates).contains(e) <==> (crates.len() - spec_ranked(crates).len() <= e
            < crates.len()) by {
        assert(spec_ranked(crates).contains(e) <==> spec_window(crates).contains(e));
        assert(spec_window(crates).contains(e) <==> (crates.len() - spec_window(crates).len() <= e
            < crates.len()));
    }
}

proof fn lemma_insert_ranked_at(crates: Seq<Crate>, s: Seq<u64>, x: u64, j: int)
    requires
        0 <= j <= s.len(),
        forall|k: int| 0 <= k < j ==> !rank_before(crates, x, s[k]),
        j < s.len() ==> rank_before(crates, x, s[j]),
    ensures
        spec_insert_ranked(crates, s, x) == s.insert(j, x),
    decreases s.len(),
{
    if s.len() == 0 {
        assert(spec_insert_ranked(crates, s, x) =~= s.insert(0, x));
    } else if j == 0 {
        assert(spec_insert_ranked(crates, s, x) =~= s.insert(0, x));
    } else {
        let rest = s.drop_first();
        assert(forall|k: int| 0 <= k < j - 1 ==> !rank_before(crates, x, rest[k]));
        lemma_insert_ranked_at(crates, rest, x, j - 1);
        assert(seq![s[0]] + rest.insert(j - 1, x) =~= s.insert(j, x));
    }
}

/// Upload errors.
#[derive(Clone, Copy, Debug, PartialEq, Eq)]
pub enum UploadError {
    /// The upload limit is reached.
    LimitReached,
    /// The upload is a duplicate.
    Duplicate,
}

/// The showcase: the append-only collection of uploaded crates, the ranked
/// view over its retention window, the per-submitter rate-limit ledger and
/// the duplicate-content record.
pub struct Showcase {
    /// The uploaded crates.  Append-only: an index, once assigned, stays
    /// valid and keeps naming the same upload forever.
    pub crates: Vec<Crate>,
    /// The sorted, currently shown crates: indices into `crates`, highest
    /// score first.
    pub shown_crates: Vec<u64>,
    /// Additions since the last update (to keep track of changes).
    pub additions: u16,
    /// Per caller id: time of the latest upload and uploads this window.
    pub latest_upload: HashMap<u64, (u64, u32)>,
    /// Canonical keys of all uploads, for checking for duplicates.
    pub uploads: Vec<String>,
}

/// Whether `key` is among the recorded canonical keys.
pub open spec fn seen_contains(uploads: Seq<String>, key: Seq<char>) -> bool {
    exists|i: int| 0 <= i < uploads.len() && uploads[i]@ == key
}

/// A submitter's ledger entry; absent submitters have never uploaded.
pub open spec fn ledger_entry(ledger: Map<u64, (u64, u32)>, who: u64) -> (u64, u32) {
    if ledger.contains_key(who) {
        ledger[who]
    } else {
        (0u64, 0u32)
    }
}

/// The rate gate: an upload is allowed if the submitter's window elapsed or
/// their count within the window is still below the limit.
pub open spec fn rate_allows(entry: (u64, u32), now: u64) -> bool {
    now - entry.0 > ONE_HOUR || entry.1 < RATE_LIMIT
}

/// The submitter's new window count after a successful upload: reseeded if
/// the window elapsed, one more otherwise.
pub open spec fn next_count(entry: (u64, u32), now: u64) -> u32 {
    if now - entry.0 > ONE_HOUR {
        RESEED
    } else {
        (entry.1 + 1) as u32
    }
}

/// How `update` changes a showcase: everything but the ranked view and the
/// addition counter is untouched, and the ranked view is recomputed from the
/// items alone.
pub open spec fn update_spec(pre: Showcase, post: Showcase) -> bool {
    &&& post.crates == pre.crates
    &&& post.latest_upload == pre.latest_upload
    &&& post.uploads == pre.uploads
    &&& post.additions == 0
    &&& post.shown_crates@ == spec_ranked(pre.crates@)
}

/// How `add_at` changes a showcase.  A duplicate key fails with `Duplicate`,
/// a failed rate gate with `LimitReached`, both leaving the store untouched;
/// otherwise the crate is appended under the next index, the key recorded,
/// the ledger advanced, and (with the default weights) the ranked view
/// recomputed.
pub open spec fn add_at_spec(
    pre: Showcase,
    new: Crate,
    now: u64,
    post: Showcase,
    r: Result<u64, UploadError>,
) -> bool {
    let key = new.spec_key();
    let entry = ledger_entry(pre.latest_upload@, new.uploader.0);
    if seen_contains(pre.uploads@, key) {
        r == Result::<u64, UploadError>::Err(UploadError::Duplicate) && post == pre
    } else if !rate_allows(entry, now) {
        r == Result::<u64, UploadError>::Err(UploadError::LimitReached) && post == pre
    } else {
        &&& r == Result::<u64, UploadError>::Ok(pre.crates@.len() as u64)
        &&& post.crates@ == pre.crates@.push(new)
        &&& post.latest_upload@ == pre.latest_upload@.insert(
            new.uploader.0,
            (now, next_count(entry, now)),
        )
        &&& post.uploads@.len() == pre.uploads@.len() + 1
        &&& (forall|i: int| 0 <= i < pre.uploads@.len() ==> post.uploads@[i] == pre.uploads@[i])
        &&& post.uploads@.last()@ == key
        &&& post.additions == 0
        &&& post.shown_crates@ == spec_ranked(pre.crates@.push(new))
    }
}

/// How `vote` changes a showcase: at most the addressed crate changes, as
/// one vote by the caller; the counter always moves and the recompute
/// trigger is evaluated whether or not the vote was applied.
pub open spec fn vote_spec(pre: Showcase, id: u64, voter: u64, post: Showcase) -> bool {
    &&& post.crates@.len() == pre.crates@.len()
    &&& (forall|j: int|
        0 <= j < pre.crates@.len() && j != id as int ==> post.crates@[j] == pre.crates@[j])
    &&& ((id as int) < pre.crates@.len() ==> voted(
        pre.crates@[id as int],
        post.crates@[id as int],
        voter,
    ))
    &&& post.uploads == pre.uploads
    &&& post.latest_upload == pre.latest_upload
    &&& (pre.additions + 1 >= UPDATE_THRESHOLD ==> post.additions == 0 && post.shown_crates@
        == spec_ranked(post.crates@))
    &&& (pre.additions + 1 < UPDATE_THRESHOLD ==> post.additions == pre.additions + 1
        && post.shown_crates == pre.shown_crates)
}

fn rank_before_exec(crates: &Vec<Crate>, a: u64, b: u64) -> (r: bool)
    requires
        (a as int) < crates@.len(),
        (b as int) < crates@.len(),
    ensures
        r == rank_before(crates@, a, b),
{
    let n = crates.len();
    proof {
        assert(a < n && b < n);
    }
    let sa = crates[a as usize].get_score();
    let sb = crates[b as usize].get_score();
    sa > sb || (sa == sb && a < b)
}

fn find_rank_pos(v: &Vec<u64>, crates: &Vec<Crate>, x: u64) -> (j: usize)
    requires
        forall|i: int| 0 <= i < v@.len() ==> (v@[i] as int) < crates@.len(),
        (x as int) < crates@.len(),
    ensures
        j <= v@.len(),
        forall|k: int| 0 <= k < j ==> !rank_before(crates@, x, v@[k]),
        j < v@.len() ==> rank_before(crates@, x, v@[j as int]),
{
    let mut j: usize = 0;
    while j < v.len()
        invariant
            j <= v@.len(),
            forall|i: int| 0 <= i < v@.len() ==> (v@[i] as int) < crates@.len(),
            (x as int) < crates@.len(),
            forall|k: int| 0 <= k < j ==> !rank_before(crates@, x, v@[k]),
        decreases v@.len() - j,
    {
        if rank_before_exec(crates, x, v[j]) {
            return j;
        }
        j = j + 1;
    }
    j
}

fn insert_ranked(v: &mut Vec<u64>, crates: &Vec<Crate>, x: u64)
    requires
        forall|i: int| 0 <= i < old(v)@.len() ==> (old(v)@[i] as int) < crates@.len(),
        (x as int) < crates@.len(),
    ensures
        final(v)@ == spec_insert_ranked(crates@, old(v)@, x),
{
    let j = find_rank_pos(v, crates, x);
    proof {
        lemma_insert_ranked_at(crates@, v@, x, j as int);
    }
    v.insert(j, x);
}

fn contains_string(v: &Vec<String>, key: &String) -> (r: bool)
    ensures
        r == seen_contains(v@, key@),
{
    let mut i: usize = 0;
    while i < v.len()
        invariant
            i <= v@.len(),
            forall|j: int| 0 <= j < i ==> v@[j]@ != key@,
        decreases v@.len() - i,
    {
        if v[i] == *key {
            return true;
        }
        i = i + 1;
    }
    false
}

/// Relies on time::get_time of the time crate for the wall-clock time now;
/// its seconds-since-epoch field is handed on as an unsigned count.  Nothing
/// is assumed of the value: callers handle every possible time.
#[verifier::external_body]
fn now_seconds() -> u64 {
    time::get_time().sec as u64
}

impl Showcase {
    /// Well-formedness of the items alone: every stored crate is internally
    /// consistent.
    pub open spec fn items_wf(&self) -> bool {
        forall|i: int| 0 <= i < self.crates@.len() ==> self.crates@[i].wf()
    }

    /// The store invariant: consistent items, an addition counter below the
    /// recompute threshold, and a ranked view of at most `RETENTION` valid
    /// indices into `crates`.
    pub open spec fn wf(&self) -> bool {
        &&& self.items_wf()
        &&& self.additions < UPDATE_THRESHOLD
        &&& self.shown_crates@.len() <= RETENTION
        &&& forall|i: int|
            0 <= i < self.shown_crates@.len() ==> (self.shown_crates@[i] as int)
                < self.crates@.len()
    }

    /// An empty showcase.
    pub fn new() -> (s: Showcase)
        ensures
            s.wf(),
            s.crates@.len() == 0,
            s.shown_crates@.len() == 0,
            s.additions == 0,
            s.latest_upload@ == Map::<u64, (u64, u32)>::empty(),
            s.uploads@.len() == 0,
    {
        Showcase {
            crates: Vec::new(),
            shown_crates: Vec::new(),
            additions: 0,
            latest_upload: HashMap::new(),
            uploads: Vec::new(),
        }
    }

    /// Update the shown crates: recompute the ranked view from scratch over
    /// the retention window and reset the addition counter.  Always
    /// succeeds; also serves as the administrative force-refresh.
    pub fn update(&mut self)
        requires
            old(self).items_wf(),
        ensures
            final(self).wf(),
            update_spec(*old(self), *final(self)),
    {
        let n = self.crates.len();
        let lo = if n > RETENTION {
            n - RETENTION
        } else {
            0
        };
        proof {
            lemma_window_props(self.crates@);
        }
        let ghost w = spec_window(self.crates@);
        let mut sorted: Vec<u64> = Vec::new();
        let mut idx: usize = lo;
        proof {
            assert(w.take(0) =~= Seq::<u64>::empty());
        }
        while idx < n
            invariant
                lo <= idx <= n,
                n == self.crates@.len(),
                lo == if n > RETENTION {
                    n - RETENTION
                } else {
                    0
                },
                w == spec_window(self.crates@),
                sorted@ == spec_sort_ranked(self.crates@, w.take(idx - lo)),
                forall|i: int| 0 <= i < sorted@.len() ==> (sorted@[i] as int) < n,
            decreases n - idx,
        {
            let ghost pre_sorted = sorted@;
            insert_ranked(&mut sorted, &self.crates, idx as u64);
            proof {
                assert(w.take(idx - lo + 1).drop_last() =~= w.take(idx - lo));
                assert(w.take(idx - lo + 1).last() == w[idx - lo]);
                lemma_insert_ranked_elems(self.crates@, pre_sorted, idx as u64);
                assert forall|i: int| 0 <= i < sorted@.len() implies (sorted@[i] as int) < n by {
                    let e = sorted@[i];
                    assert(sorted@.contains(e));
                    if pre_sorted.contains(e) {
                        let k = choose|k: int| 0 <= k < pre_sorted.len() && pre_sorted[k] == e;
                    }
                }
            }
            idx = idx + 1;
        }
        proof {
            assert(w.take(n - lo) =~= w);
            lemma_ranked_props(self.crates@);
            assert forall|i: int| 0 <= i < sorted@.len() implies (sorted@[i] as int) < n by {
                assert(sorted@.contains(sorted@[i]));
            }
        }
        self.shown_crates = sorted;
        self.additions = 0;
    }

    /// Evaluate the recompute trigger: rebuild the ranked view once enough
    /// additions have accumulated.
    fn check_update(&mut self)
        requires
            old(self).items_wf(),
        ensures
            old(self).additions >= UPDATE_THRESHOLD ==> final(self).wf() && update_spec(
                *old(self),
                *final(self),
            ),
            old(self).additions < UPDATE_THRESHOLD ==> *final(self) == *old(self),
    {
        if self.additions >= UPDATE_THRESHOLD {
            self.update();
        }
    }

    /// Add a new crate to the showcase, dated `now` (seconds): refuse
    /// duplicates and rate-limited submitters, otherwise append the crate
    /// and return its permanent index.
    pub fn add_at(&mut self, new: Crate, now: u64) -> (r: Result<u64, UploadError>)
        requires
            old(self).wf(),
            new.wf(),
        ensures
            final(self).wf(),
            add_at_spec(*old(self), new, now, *final(self), r),
    {
        let data = new.to_string();
        if contains_string(&self.uploads, &data) {
            return Err(UploadError::Duplicate);
        }
        let who = new.uploader.0;
        let (last, count) = match self.latest_upload.get(&who) {
            Some(e) => *e,
            None => (0u64, 0u32),
        };
        let elapsed_long = now > last && now - last > ONE_HOUR;
        if !(elapsed_long || count < RATE_LIMIT) {
            return Err(UploadError::LimitReached);
        }
        let idx = self.crates.len() as u64;
        self.crates.push(new);
        let new_count = if elapsed_long {
            RESEED
        } else {
            count + 1
        };
        self.latest_upload.insert(who, (now, new_count));
        self.additions = self.additions + SUBMIT_WEIGHT;
        self.check_update();
        self.uploads.push(data);
        Ok(idx)
    }

    /// Add a new crate to the showcase, dated with the wall-clock time now.
    /// Which gate outcome the clock selects cannot be promised, but the
    /// duplicate check does not depend on it.
    pub fn add(&mut self, new: Crate) -> (r: Result<u64, UploadError>)
        requires
            old(self).wf(),
            new.wf(),
        ensures
            final(self).wf(),
            exists|now: u64| add_at_spec(*old(self), new, now, *final(self), r),
            seen_contains(old(self).uploads@, new.spec_key()) ==> r == Result::<
                u64,
                UploadError,
            >::Err(UploadError::Duplicate) && *final(self) == *old(self),
    {
        let now = now_seconds();
        let r = self.add_at(new, now);
        proof {
            assert(add_at_spec(*old(self), new, now, *self, r));
        }
        r
    }

    /// Upvote the crate with index `id` on behalf of `ip`.  A silent no-op
    /// on an out-of-range index and on a repeated voter, by design: invalid,
    /// attacker-controlled input must never crash the store.  The recompute
    /// trigger moves either way.
    pub fn vote(&mut self, id: u64, ip: Ip)
        requires
            old(self).wf(),
            ip.0 < ID_SPACE,
        ensures
            final(self).wf(),
            vote_spec(*old(self), id, ip.0, *final(self)),
    {
        if id < self.crates.len() as u64 {
            let i = id as usize;
            self.crates[i].vote(ip);
        }
        self.additions = self.additions + 1;
        self.check_update();
    }

    /// A snapshot of the ranked view: item indices, best first.
    pub fn list_ranked(&self) -> (r: Vec<u64>)
        ensures
            r@ == self.shown_crates@,
    {
        let mut r: Vec<u64> = Vec::new();
        let mut i: usize = 0;
        while i < self.shown_crates.len()
            invariant
                i <= self.shown_crates@.len(),
                r@ == self.shown_crates@.take(i as int),
            decreases self.shown_crates@.len() - i,
        {
            r.push(self.shown_crates[i]);
            proof {
                assert(self.shown_crates@.take(i + 1) =~= self.shown_crates@.take(i as int).push(
                    self.shown_crates@[i as int],
                ));
            }
            i = i + 1;
        }
        proof {
            assert(self.shown_crates@.take(i as int) =~= self.shown_crates@);
        }
        r
    }

    /// Look up an uploaded crate by index; none if the index was never
    /// assigned.  Not an error, by the same design choice as `vote`.
    pub fn get_item(&self, id: u64) -> (r: Option<&Crate>)
        ensures
            (id as int) < self.crates@.len() ==> r == Some(&self.crates@[id as int]),
            (id as int) >= self.crates@.len() ==> r == None::<&Crate>,
    {
        if id < self.crates.len() as u64 {
            Some(&self.crates[id as usize])
        } else {
            None
        }
    }
}

/// Recompute is idempotent: recomputing twice in a row with no intervening
/// mutation yields the same ranked view as recomputing once.
pub proof fn lemma_update_idempotent(s0: Showcase, s1: Showcase, s2: Showcase)
    requires
        update_spec(s0, s1),
        update_spec(s1, s2),
    ensures
        s2.shown_crates@ == s1.shown_crates@,
{
}

/// Deduplication: once a submission went through, a second submission with
/// the same canonical key - whoever submits it, whenever - fails with
/// `Duplicate` and leaves the store unmodified.
pub proof fn lemma_duplicate_rejected(
    pre: Showcase,
    a: Crate,
    now1: u64,
    mid: Showcase,
    r1: Result<u64, UploadError>,
    b: Crate,
    now2: u64,
    post: Showcase,
    r2: Result<u64, UploadError>,
)
    requires
        add_at_spec(pre, a, now1, mid, r1),
        r1 is Ok,
        b.spec_key() == a.spec_key(),
        add_at_spec(mid, b, now2, post, r2),
    ensures
        r2 == Result::<u64, UploadError>::Err(UploadError::Duplicate),
        post == mid,
{
    assert(seen_contains(mid.uploads@, b.spec_key())) by {
        assert(mid.uploads@[mid.uploads@.len() - 1]@ == a.spec_key());
    }
}

/// Rate limiting: a submitter who reached the limit within the window is
/// refused with `LimitReached` and the store is unmodified.
pub proof fn lemma_rate_limited(
    pre: Showcase,
    new: Crate,
    now: u64,
    post: Showcase,
    r: Result<u64, UploadError>,
)
    requires
        add_at_spec(pre, new, now, post, r),
        !seen_contains(pre.uploads@, new.spec_key()),
        ledger_entry(pre.latest_upload@, new.uploader.0).1 >= RATE_LIMIT,
        now - ledger_entry(pre.latest_upload@, new.uploader.0).0 <= ONE_HOUR,
    ensures
        r == Result::<u64, UploadError>::Err(UploadError::LimitReached),
        post == pre,
{
}

/// Rate limiting, after the window: once the window elapsed, a fresh (not
/// duplicate) submission succeeds again and the submitter's count restarts
/// at the reseed value.
pub proof fn lemma_rate_limit_reseeds(
    pre: Showcase,
    new: Crate,
    now: u64,
    post: Showcase,
    r: Result<u64, UploadError>,
)
    requires
        add_at_spec(pre, new, now, post, r),
        !seen_contains(pre.uploads@, new.spec_key()),
        now - ledger_entry(pre.latest_upload@, new.uploader.0).0 > ONE_HOUR,
    ensures
        r == Result::<u64, UploadError>::Ok(pre.crates@.len() as u64),
        ledger_entry(post.latest_upload@, new.uploader.0) == (now, RESEED),
{
}

} // verus!
