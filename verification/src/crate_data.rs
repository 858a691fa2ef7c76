//! The data of the uploaded crates: where a crate lives, who uploaded it, and
//! its vote state.

use vstd::prelude::*;
use vstd::string::*;
use std::collections::HashSet;

use crate::score::{compute_score, spec_score};

verus! {

broadcast use vstd::std_specs::hash::group_hash_axioms, vstd::set::group_set_axioms;

/// Size of the pseudonymous caller-identity space: a caller's address hash is
/// reduced modulo this bound.  The bound is deliberately small so that
/// distinct addresses may collide (k-anonymity by design); this is hash-based
/// pseudonymization, not cryptographic privacy.
pub const ID_SPACE: u64 = 15000;

/// Offset basis of the 64-bit FNV-1a hash.
pub const FNV_OFFSET: u64 = 0xcbf2_9ce4_8422_2325;

/// Prime of the 64-bit FNV-1a hash.
pub const FNV_PRIME: u64 = 0x100_0000_01b3;

/// One FNV-1a round: fold one byte into the running hash.
pub open spec fn fnv1a_step(h: u64, b: u8) -> u64 {
    (((h ^ (b as u64)) as nat * FNV_PRIME as nat) % 0x1_0000_0000_0000_0000) as u64
}

/// The 64-bit FNV-1a hash of a byte sequence.
pub open spec fn fnv1a(bytes: Seq<u8>) -> u64
    decreases bytes.len(),
{
    if bytes.len() == 0 {
        FNV_OFFSET
    } else {
        fnv1a_step(fnv1a(bytes.drop_last()), bytes.last())
    }
}

/// A caller identity: a pseudonymous id in `[0, ID_SPACE)`, derived from the
/// caller's raw network address by a stable hash.  Same address, same id
/// within one process lifetime; distinct addresses may collide by design.
#[derive(Clone, Copy, PartialEq, Eq, Hash, Structural)]
pub struct Ip(pub u64);

impl Ip {
    /// Hash a raw address into a caller identity.  Deterministic (FNV-1a of
    /// the address bytes, reduced modulo `ID_SPACE`) and total: every input
    /// yields an id below `ID_SPACE`.
    pub fn new(addr: &str) -> (ip: Ip)
        ensures
            ip.0 == fnv1a(addr.spec_bytes()) % ID_SPACE,
            ip.0 < ID_SPACE,
    {
        let bytes: &[u8] = addr.as_bytes();
        let mut h: u64 = FNV_OFFSET;
        let mut i: usize = 0;
        while i < bytes.len()
            invariant
                i <= bytes@.len(),
                bytes@ == addr.spec_bytes(),
                h == fnv1a(bytes@.take(i as int)),
            decreases bytes@.len() - i,
        {
            h = (h ^ (bytes[i] as u64)).wrapping_mul(FNV_PRIME);
            proof {
                assert(bytes@.take(i + 1).drop_last() =~= bytes@.take(i as int));
            }
            i = i + 1;
        }
        proof {
            assert(bytes@.take(bytes@.len() as int) =~= bytes@);
        }
        Ip(h % ID_SPACE)
    }
}

/// A github repo.
#[derive(Clone)]
pub struct GithubRepo {
    /// The username.
    pub user: String,
    /// The name of the repo.
    pub name: String,
}

/// Where an uploaded crate lives (host plus coordinates); a tagged union so
/// that hosts other than github can be added later.
#[derive(Clone)]
pub enum CrateStorage {
    /// Crate on github.
    Github(GithubRepo),
}

impl CrateStorage {
    /// The canonical source descriptor, `host:user:repo`.
    pub open spec fn spec_name(&self) -> Seq<char> {
        match *self {
            CrateStorage::Github(repo) => "github:"@ + repo.user@ + ":"@ + repo.name@,
        }
    }

    /// Render the canonical source descriptor, e.g. `github:user:repo`.
    pub fn name(&self) -> (r: String)
        ensures
            r@ == self.spec_name(),
    {
        match self {
            CrateStorage::Github(repo) => {
                let mut s: String = "github:".to_owned();
                s.append(repo.user.as_str());
                s.append(":");
                s.append(repo.name.as_str());
                s
            },
        }
    }
}

/// An uploaded crate: the record of one submission plus its vote state.
/// Everything but `votes` and `voters` is immutable after creation.
pub struct Crate {
    /// The description of this crate, supplied by the uploader.
    pub description: String,
    /// The crate storage.
    pub repo: CrateStorage,
    /// The time when the crate was uploaded, in seconds since the epoch.
    pub uploaded: u64,
    /// The (hashed) identity of the uploader.
    pub uploader: Ip,
    /// The number of votes it has got.
    pub votes: u32,
    /// The callers who upvoted this crate; guards against double voting.
    pub voters: HashSet<u64>,
}

/// The set of caller ids strictly below `n`.
spec fn ids_below(n: nat) -> Set<u64>
    recommends
        n <= 0xffff_ffff_ffff_ffff,
    decreases n,
{
    if n == 0 {
        Set::empty()
    } else {
        ids_below((n - 1) as nat).insert((n - 1) as u64)
    }
}

proof fn lemma_ids_below(n: nat)
    requires
        n <= ID_SPACE,
    ensures
        ids_below(n).finite(),
        ids_below(n).len() == n,
        forall|v: u64| ids_below(n).contains(v) <==> (v as nat) < n,
    decreases n,
{
    if n > 0 {
        lemma_ids_below((n - 1) as nat);
    }
}

/// A set of caller ids drawn from the identity space has at most `ID_SPACE`
/// elements; in particular a crate's vote count cannot overflow.
pub proof fn lemma_voter_count_bounded(s: Set<u64>)
    requires
        s.finite(),
        forall|v: u64| s.contains(v) ==> v < ID_SPACE,
    ensures
        s.len() <= ID_SPACE,
{
    lemma_ids_below(ID_SPACE as nat);
    assert(s.subset_of(ids_below(ID_SPACE as nat)));
    vstd::set_lib::lemma_len_subset(s, ids_below(ID_SPACE as nat));
}

/// How one vote by `voter` changes a crate: a no-op if the caller has voted
/// before, otherwise the caller is recorded and the count grows by one.
/// Everything else is untouched.
pub open spec fn voted(pre: Crate, post: Crate, voter: u64) -> bool {
    &&& post.description == pre.description
    &&& post.repo == pre.repo
    &&& post.uploaded == pre.uploaded
    &&& post.uploader == pre.uploader
    &&& if pre.voters@.contains(voter) {
        post.votes == pre.votes && post.voters@ == pre.voters@
    } else {
        post.votes == pre.votes + 1 && post.voters@ == pre.voters@.insert(voter)
    }
}

/// Voting is idempotent per (item, caller) pair: after a caller's vote has
/// been applied once, a repeated vote by the same caller changes neither the
/// vote count nor the voter record, so two consecutive votes increment the
/// count only once.
pub proof fn lemma_vote_idempotent(c0: Crate, c1: Crate, c2: Crate, voter: u64)
    requires
        voted(c0, c1, voter),
        voted(c1, c2, voter),
    ensures
        c2.votes == c1.votes,
        c2.voters@ == c1.voters@,
        !c0.voters@.contains(voter) ==> c1.votes == c0.votes + 1,
        c0.voters@.contains(voter) ==> c1.votes == c0.votes,
{
}

impl Crate {
    /// Internal consistency: the vote count is exactly the number of distinct
    /// recorded voters, and every recorded voter is a valid caller id.
    pub open spec fn wf(&self) -> bool {
        &&& self.voters@.finite()
        &&& self.votes as nat == self.voters@.len()
        &&& forall|v: u64| self.voters@.contains(v) ==> v < ID_SPACE
    }

    /// The score of this crate, as an integer.
    pub open spec fn score(&self) -> int {
        spec_score(self.votes, self.uploaded)
    }

    /// Get the score of the crate.
    pub fn get_score(&self) -> (s: u128)
        ensures
            s == self.score(),
    {
        compute_score(self.votes, self.uploaded)
    }

    /// Upvote this crate.  Idempotent per caller: a repeated vote by the same
    /// caller changes nothing.
    pub fn vote(&mut self, ip: Ip)
        requires
            old(self).wf(),
            ip.0 < ID_SPACE,
        ensures
            final(self).wf(),
            voted(*old(self), *final(self), ip.0),
    {
        if !self.voters.contains(&ip.0) {
            proof {
                lemma_voter_count_bounded(self.voters@);
            }
            self.voters.insert(ip.0);
            self.votes = self.votes + 1;
        }
    }

    /// The canonical content key, `host:user:repo:description`; two
    /// submissions with the same key are duplicates of each other, whoever
    /// submitted them and whenever.
    pub open spec fn spec_key(&self) -> Seq<char> {
        self.repo.spec_name() + ":"@ + self.description@
    }

    /// Convert this crate to its canonical content key, for example
    /// `github:rust-lang:rust:the rust compiler`.
    pub fn to_string(&self) -> (r: String)
        ensures
            r@ == self.spec_key(),
    {
        let mut s = self.repo.name();
        s.append(":");
        s.append(self.description.as_str());
        s
    }
}

} // verus!
