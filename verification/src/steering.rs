//! Node selection rules. The measurements behind them (latency averages,
//! load ratios, prices) are real numbers computed by the caller; here each
//! node is described by the yes/no answers and the orderings the rules read:
//! whether it is eligible, and its rank under the quantity being minimised
//! (a smaller rank means a smaller quantity, equal ranks equal quantities).
use vstd::prelude::*;

verus! {

/// Position `i` holds an eligible node whose rank no eligible node beats,
/// and no eligible node before it has the same rank: the node `min_by`
/// returns, which takes the first of equal minima.
pub open spec fn is_first_min(eligible: Seq<bool>, rank: Seq<u64>, i: int) -> bool {
    &&& 0 <= i < eligible.len()
    &&& eligible[i]
    &&& forall|j: int| 0 <= j < eligible.len() && eligible[j] ==> rank[i] <= #[trigger] rank[j]
    &&& forall|j: int| 0 <= j < i && eligible[j] ==> rank[i] < #[trigger] rank[j]
}

pub open spec fn any_eligible(eligible: Seq<bool>) -> bool {
    exists|j: int| 0 <= j < eligible.len() && #[trigger] eligible[j]
}

/// The first eligible position of smallest rank, if any position is
/// eligible.
pub fn first_min_index(eligible: &Vec<bool>, rank: &Vec<u64>) -> (r: Option<usize>)
    requires
        eligible@.len() == rank@.len(),
    ensures
        match r {
            Some(i) => is_first_min(eligible@, rank@, i as int),
            None => !any_eligible(eligible@),
        },
{
    let n = eligible.len();
    let mut best: Option<usize> = None;
    let mut i: usize = 0;
    while i < n
        invariant
            n == eligible@.len() == rank@.len(),
            i <= n,
            match best {
                Some(b) => b < i && is_first_min(eligible@.take(i as int), rank@.take(i as int), b as int),
                None => forall|j: int| 0 <= j < i ==> !#[trigger] eligible@[j],
            },
        decreases n - i,
    {
        if eligible[i] {
            match best {
                None => {
                    best = Some(i);
                },
                Some(b) => {
                    if rank[i] < rank[b] {
                        best = Some(i);
                    }
                },
            }
        }
        proof {
            let e1 = eligible@.take(i + 1 as int);
            let r1 = rank@.take(i + 1 as int);
            match best {
                Some(b) => {
                    assert forall|j: int| 0 <= j < e1.len() && e1[j] implies r1[b as int]
                        <= #[trigger] r1[j] by {
                        if j < i {
                            assert(eligible@.take(i as int)[j] == e1[j]);
                            assert(rank@.take(i as int)[j] == r1[j]);
                        }
                    }
                    assert forall|j: int| 0 <= j < b && e1[j] implies r1[b as int]
                        < #[trigger] r1[j] by {
                        assert(eligible@.take(i as int)[j] == e1[j]);
                        assert(rank@.take(i as int)[j] == r1[j]);
                    }
                },
                None => {},
            }
        }
        i = i + 1;
    }
    proof {
        assert(eligible@.take(n as int) =~= eligible@);
        assert(rank@.take(n as int) =~= rank@);
        if best is None {
            assert forall|j: int| 0 <= j < n implies !#[trigger] eligible@[j] by {}
        }
    }
    best
}

/// The node the budget policy routes to: among the nodes that qualify
/// (healthy, not saturated, within the latency budget) the cheapest, the
/// first of equals; when none qualifies, the fastest healthy node, since
/// once the user experience is degraded cost stops being the priority.
pub open spec fn budget_choice(
    qualifies: Seq<bool>,
    cost_rank: Seq<u64>,
    healthy: Seq<bool>,
    latency_rank: Seq<u64>,
    r: Option<usize>,
) -> bool {
    if any_eligible(qualifies) {
        r matches Some(i) && is_first_min(qualifies, cost_rank, i as int)
    } else {
        match r {
            Some(i) => is_first_min(healthy, latency_rank, i as int),
            None => !any_eligible(healthy),
        }
    }
}

/// Choose the cheapest node that still meets the latency budget, falling
/// back to the fastest healthy node.
pub fn choose_within_budget(
    qualifies: &Vec<bool>,
    cost_rank: &Vec<u64>,
    healthy: &Vec<bool>,
    latency_rank: &Vec<u64>,
) -> (r: Option<usize>)
    requires
        qualifies@.len() == cost_rank@.len(),
        healthy@.len() == latency_rank@.len(),
    ensures
        budget_choice(qualifies@, cost_rank@, healthy@, latency_rank@, r),
{
    match first_min_index(qualifies, cost_rank) {
        Some(i) => Some(i),
        None => first_min_index(healthy, latency_rank),
    }
}

/// A node within budget is always preferred: whenever one qualifies, the
/// choice qualifies, and no qualifying node is cheaper.
pub proof fn law_budget_first(
    qualifies: Seq<bool>,
    cost_rank: Seq<u64>,
    healthy: Seq<bool>,
    latency_rank: Seq<u64>,
    r: Option<usize>,
    j: int,
)
    requires
        budget_choice(qualifies, cost_rank, healthy, latency_rank, r),
        0 <= j < qualifies.len(),
        qualifies[j],
    ensures
        r matches Some(i) && qualifies[i as int] && cost_rank[i as int] <= cost_rank[j],
{
    assert(any_eligible(qualifies));
}

/// When no node is within budget, traffic goes to the fastest healthy
/// node: the choice is healthy, no healthy node has a smaller latency rank,
/// none before it has an equal one, and there is a choice whenever some node
/// is healthy.
pub proof fn law_fallback_fastest(
    qualifies: Seq<bool>,
    cost_rank: Seq<u64>,
    healthy: Seq<bool>,
    latency_rank: Seq<u64>,
    r: Option<usize>,
)
    requires
        budget_choice(qualifies, cost_rank, healthy, latency_rank, r),
        forall|j: int| 0 <= j < qualifies.len() ==> !#[trigger] qualifies[j],
    ensures
        (exists|j: int| 0 <= j < healthy.len() && #[trigger] healthy[j]) ==> r is Some,
        r is None ==> forall|j: int| 0 <= j < healthy.len() ==> !#[trigger] healthy[j],
        r matches Some(i) ==> {
            &&& 0 <= i < healthy.len()
            &&& healthy[i as int]
            &&& forall|j: int|
                0 <= j < healthy.len() && healthy[j] ==> latency_rank[i as int]
                    <= #[trigger] latency_rank[j]
            &&& forall|j: int|
                0 <= j < i && healthy[j] ==> latency_rank[i as int] < #[trigger] latency_rank[j]
        },
{
    assert(!any_eligible(qualifies));
    if exists|j: int| 0 <= j < healthy.len() && #[trigger] healthy[j] {
        let j = choose|j: int| 0 <= j < healthy.len() && #[trigger] healthy[j];
        assert(any_eligible(healthy));
    }
}

/// The selection picks an eligible position with the smallest rank, the
/// first of equals, and finds one whenever any position is eligible.
pub proof fn law_first_min_is_smallest(eligible: Seq<bool>, rank: Seq<u64>, r: Option<usize>)
    requires
        match r {
            Some(i) => is_first_min(eligible, rank, i as int),
            None => !any_eligible(eligible),
        },
    ensures
        (exists|j: int| 0 <= j < eligible.len() && #[trigger] eligible[j]) ==> r is Some,
        r matches Some(i) ==> {
            &&& 0 <= i < eligible.len()
            &&& eligible[i as int]
            &&& forall|j: int|
                0 <= j < eligible.len() && eligible[j] ==> rank[i as int] <= #[trigger] rank[j]
            &&& forall|j: int| 0 <= j < i && eligible[j] ==> rank[i as int] < #[trigger] rank[j]
        },
{
    if exists|j: int| 0 <= j < eligible.len() && #[trigger] eligible[j] {
        let j = choose|j: int| 0 <= j < eligible.len() && #[trigger] eligible[j];
        assert(any_eligible(eligible));
    }
}

} // verus!
