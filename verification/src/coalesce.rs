//! Origin-stampede defences: request coalescing decisions and
//! stale-while-revalidate.
use vstd::prelude::*;
use crate::cache::Entry;

verus! {

/// Whether a stale copy may be served while a refresh runs in the
/// background: the entry has expired, and by no more than
/// `stale_tolerance_secs`.
///
/// Coalescing makes one request pay the origin latency. This makes zero pay
/// it: everyone gets the slightly-stale object at once, and the refresh
/// happens out of band.
pub fn should_serve_stale_while_revalidating(
    entry: &Entry,
    now: u64,
    stale_tolerance_secs: u64,
) -> (r: bool)
    ensures
        r == (now > entry.expires_at && now - entry.expires_at <= stale_tolerance_secs),
{
    now > entry.expires_at && now - entry.expires_at <= stale_tolerance_secs
}

/// What a request for a key does when it reaches the coalescer.
#[derive(Debug, Clone, Copy, PartialEq, Eq)]
pub enum FlightRole {
    /// No fetch is running for the key: this request fetches it.
    Leader,
    /// A fetch is already running: this request waits for its result.
    Follower,
}

/// The role a request for `k` takes while the keys `ks` are being fetched.
pub open spec fn role_for(ks: Seq<Seq<char>>, k: Seq<char>) -> FlightRole {
    if ks.contains(k) {
        FlightRole::Follower
    } else {
        FlightRole::Leader
    }
}

/// The keys in flight after a request for `k` arrives.
pub open spec fn after_begin(ks: Seq<Seq<char>>, k: Seq<char>) -> Seq<Seq<char>> {
    if ks.contains(k) {
        ks
    } else {
        ks.push(k)
    }
}

/// The keys in flight after the fetch for `k` completes: all but `k`, in
/// their order.
pub open spec fn after_finish(ks: Seq<Seq<char>>, k: Seq<char>) -> Seq<Seq<char>>
    decreases ks.len(),
{
    if ks.len() == 0 {
        ks
    } else if ks.last() == k {
        after_finish(ks.drop_last(), k)
    } else {
        after_finish(ks.drop_last(), k).push(ks.last())
    }
}

/// The set of keys whose origin fetch is under way.
///
/// The failure this prevents: a popular object expires, and every concurrent
/// request for it misses at once. Without coalescing, a thousand requests
/// become a thousand origin fetches in the same instant.
pub struct InFlight {
    keys: Vec<String>,
}

impl InFlight {
    /// The keys being fetched, oldest first.
    pub closed spec fn keys(&self) -> Seq<Seq<char>> {
        self.keys@.map_values(|s: String| s@)
    }

    /// No key is fetched twice at the same time.
    pub closed spec fn wf(&self) -> bool {
        self.keys().no_duplicates()
    }

    pub fn new() -> (r: Self)
        ensures
            r.wf(),
            r.keys() == Seq::<Seq<char>>::empty(),
    {
        let r = InFlight { keys: Vec::new() };
        assert(r.keys() =~= Seq::<Seq<char>>::empty());
        r
    }

    /// Whether a fetch for `key` is under way.
    pub fn contains(&self, key: &str) -> (r: bool)
        ensures
            r == self.keys().contains(key@),
    {
        let k = key.to_owned();
        let n = self.keys.len();
        let mut i: usize = 0;
        while i < n
            invariant
                n == self.keys@.len(),
                i <= n,
                k@ == key@,
                forall|j: int| 0 <= j < i ==> self.keys()[j] != key@,
            decreases n - i,
        {
            if self.keys[i] == k {
                assert(self.keys()[i as int] == key@);
                return true;
            }
            i = i + 1;
        }
        false
    }

    /// A request for `key` arrives: it leads a new fetch unless one is
    /// already under way, in which case it follows that one.
    pub fn begin(&mut self, key: &str) -> (r: FlightRole)
        requires
            old(self).wf(),
        ensures
            final(self).wf(),
            r == role_for(old(self).keys(), key@),
            final(self).keys() == after_begin(old(self).keys(), key@),
    {
        if self.contains(key) {
            FlightRole::Follower
        } else {
            let ghost ks = self.keys();
            self.keys.push(key.to_owned());
            assert(self.keys() =~= ks.push(key@));
            FlightRole::Leader
        }
    }

    /// The fetch for `key` has completed. It leaves the set BEFORE its result
    /// is handed out, so the next request starts a fresh fetch rather than
    /// joining a finished one.
    pub fn finish(&mut self, key: &str)
        requires
            old(self).wf(),
        ensures
            final(self).wf(),
            final(self).keys() == after_finish(old(self).keys(), key@),
    {
        let k = key.to_owned();
        let ghost ks = self.keys();
        let mut kept: Vec<String> = Vec::new();
        let n = self.keys.len();
        let mut i: usize = 0;
        while i < n
            invariant
                n == self.keys@.len(),
                i <= n,
                k@ == key@,
                ks == self.keys(),
                ks.no_duplicates(),
                kept@.map_values(|s: String| s@) == after_finish(ks.take(i as int), key@),
            decreases n - i,
        {
            let ghost before = kept@.map_values(|s: String| s@);
            assert(ks.take(i + 1 as int).drop_last() =~= ks.take(i as int));
            assert(ks.take(i + 1 as int).last() == ks[i as int]);
            if self.keys[i] != k {
                kept.push(self.keys[i].clone());
                assert(kept@.map_values(|s: String| s@) =~= before.push(ks[i as int]));
            } else {
                assert(kept@.map_values(|s: String| s@) =~= before);
            }
            i = i + 1;
        }
        assert(ks.take(n as int) =~= ks);
        self.keys = kept;
        proof {
            lemma_after_finish_no_duplicates(ks, key@);
        }
    }
}

/// What stays after finishing `k` is exactly the other keys.
proof fn lemma_after_finish_contains(ks: Seq<Seq<char>>, k: Seq<char>, x: Seq<char>)
    ensures
        after_finish(ks, k).contains(x) <==> (ks.contains(x) && x != k),
    decreases ks.len(),
{
    if ks.len() > 0 {
        let d = ks.drop_last();
        let l = ks.last();
        lemma_after_finish_contains(d, k, x);
        let r = after_finish(d, k);
        let out = after_finish(ks, k);
        if out.contains(x) {
            let i = choose|i: int| 0 <= i < out.len() && out[i] == x;
            if l != k && i == r.len() {
                assert(ks[ks.len() - 1] == x);
            } else {
                assert(r[i] == x);
                assert(r.contains(x));
                let m = choose|m: int| 0 <= m < d.len() && d[m] == x;
                assert(ks[m] == x);
            }
        }
        if ks.contains(x) && x != k {
            let i = choose|i: int| 0 <= i < ks.len() && ks[i] == x;
            if i == ks.len() - 1 {
                assert(out[r.len() as int] == x);
            } else {
                assert(d[i] == x);
                assert(d.contains(x));
                let m = choose|m: int| 0 <= m < r.len() && r[m] == x;
                if l == k {
                    assert(out[m] == x);
                } else {
                    assert(out[m] == x);
                }
            }
        }
    }
}

proof fn lemma_after_finish_no_duplicates(ks: Seq<Seq<char>>, k: Seq<char>)
    requires
        ks.no_duplicates(),
    ensures
        after_finish(ks, k).no_duplicates(),
    decreases ks.len(),
{
    if ks.len() > 0 {
        let d = ks.drop_last();
        assert(d.no_duplicates()) by {
            assert forall|i: int, j: int| 0 <= i < d.len() && 0 <= j < d.len() && i != j implies d[i]
                != d[j] by {
                assert(d[i] == ks[i] && d[j] == ks[j]);
            }
        }
        lemma_after_finish_no_duplicates(d, k);
        if ks.last() != k {
            lemma_after_finish_contains(d, k, ks.last());
            if d.contains(ks.last()) {
                let i = choose|i: int| 0 <= i < d.len() && d[i] == ks.last();
                assert(ks[i] == ks[ks.len() - 1]);
            }
            let r = after_finish(d, k);
            assert forall|i: int, j: int|
                0 <= i < r.push(ks.last()).len() && 0 <= j < r.push(ks.last()).len() && i != j implies r.push(
                ks.last(),
            )[i] != r.push(ks.last())[j] by {
                if i < r.len() && j < r.len() {
                } else if i < r.len() {
                    assert(r.contains(r[i]));
                } else {
                    assert(r.contains(r[j]));
                }
            }
        }
    }
}

/// At most one leader per key: once a request leads the fetch of `k`, every
/// request for `k` that arrives before it completes follows.
pub proof fn law_one_leader_per_key(ks: Seq<Seq<char>>, k: Seq<char>)
    ensures
        role_for(after_begin(ks, k), k) == FlightRole::Follower,
{
    if !ks.contains(k) {
        assert(ks.push(k)[ks.len() as int] == k);
    }
}

/// After a fetch completes, the next request for its key leads a fresh fetch.
pub proof fn law_finish_then_lead(ks: Seq<Seq<char>>, k: Seq<char>)
    ensures
        role_for(after_finish(ks, k), k) == FlightRole::Leader,
        !after_finish(ks, k).contains(k),
{
    lemma_after_finish_contains(ks, k, k);
}

/// Requests for one key never change the role of a request for another.
pub proof fn law_keys_independent(ks: Seq<Seq<char>>, k: Seq<char>, k2: Seq<char>)
    requires
        k != k2,
    ensures
        role_for(after_begin(ks, k), k2) == role_for(ks, k2),
        role_for(after_finish(ks, k), k2) == role_for(ks, k2),
{
    if !ks.contains(k) {
        if ks.push(k).contains(k2) {
            let i = choose|i: int| 0 <= i < ks.push(k).len() && ks.push(k)[i] == k2;
            assert(ks[i] == k2);
        }
        if ks.contains(k2) {
            let i = choose|i: int| 0 <= i < ks.len() && ks[i] == k2;
            assert(ks.push(k)[i] == k2);
        }
    }
    lemma_after_finish_contains(ks, k, k2);
}

} // verus!
