//! Breadth-first search for the candidate closest to the goal.
use vstd::prelude::*;

use crate::candidate::{abs_diff, candidate_view, next_gen_of, Candidate, CandidateModel, History};
use crate::number_list::{ascending, NumberList};

verus! {

/// The root of the search over `numbers`.
pub open spec fn root_of(numbers: Seq<u32>) -> CandidateModel {
    CandidateModel { numbers: ascending(numbers), history: History::Empty, result: 0 }
}

/// The children of the first `n` candidates of `cs`, in order.
pub open spec fn expand(cs: Seq<CandidateModel>, n: int) -> Seq<CandidateModel>
    decreases n,
{
    if n <= 0 {
        Seq::empty()
    } else {
        expand(cs, n - 1) + next_gen_of(cs[n - 1])
    }
}

/// The candidates at depth `d` below `root`, in breadth-first order.
pub open spec fn level(root: CandidateModel, d: nat) -> Seq<CandidateModel>
    decreases d,
{
    if d == 0 {
        seq![root]
    } else {
        let above = level(root, (d - 1) as nat);
        expand(above, above.len() as int)
    }
}

/// The candidates at depths `1` to `d`, in the order in which the search
/// meets them.
pub open spec fn visits(root: CandidateModel, d: nat) -> Seq<CandidateModel>
    decreases d,
{
    if d == 0 {
        Seq::empty()
    } else {
        visits(root, (d - 1) as nat) + level(root, d)
    }
}

/// Distance from a candidate's result to `goal`.
pub open spec fn dist(c: CandidateModel, goal: u32) -> u32 {
    abs_diff(c.result, goal)
}

/// The first candidate of `v` that meets the goal exactly, if any.
pub open spec fn first_exact(v: Seq<CandidateModel>, goal: u32) -> Option<CandidateModel>
    decreases v.len(),
{
    if v.len() == 0 {
        None
    } else {
        match first_exact(v.drop_last(), goal) {
            Some(c) => Some(c),
            None => if dist(v.last(), goal) == 0 {
                Some(v.last())
            } else {
                None
            },
        }
    }
}

/// The distance of the best candidate so far; `goal` itself when there is
/// none yet.
pub open spec fn best_dist(b: Option<CandidateModel>, goal: u32) -> u32 {
    match b {
        Some(c) => dist(c, goal),
        None => goal,
    }
}

/// The best candidate of `v`: the first one to come strictly closer to the
/// goal than every candidate before it, and than `goal` itself.
pub open spec fn best_of(v: Seq<CandidateModel>, goal: u32) -> Option<CandidateModel>
    decreases v.len(),
{
    if v.len() == 0 {
        None
    } else {
        let b = best_of(v.drop_last(), goal);
        if dist(v.last(), goal) < best_dist(b, goal) {
            Some(v.last())
        } else {
            b
        }
    }
}

/// What a search that meets the candidates of `v` in order reports: the
/// first exact match, or else the best candidate.
pub open spec fn outcome(v: Seq<CandidateModel>, goal: u32) -> Option<CandidateModel> {
    match first_exact(v, goal) {
        Some(c) => Some(c),
        None => best_of(v, goal),
    }
}

/// What the solver reports for `goal` and the source `numbers`.
pub open spec fn solution(goal: u32, numbers: Seq<u32>) -> Option<CandidateModel> {
    outcome(visits(root_of(numbers), numbers.len()), goal)
}

/// An optional candidate seen through its model.
pub open spec fn opt_view(r: Option<Candidate>) -> Option<CandidateModel> {
    match r {
        Some(c) => Some(c@),
        None => None,
    }
}

proof fn lemma_prefix_concat(x: Seq<CandidateModel>, a: Seq<CandidateModel>, b: Seq<CandidateModel>)
    requires
        a.is_prefix_of(b),
    ensures
        (x + a).is_prefix_of(x + b),
{
    assert((x + a) =~= (x + b).subrange(0, (x + a).len() as int));
}

proof fn lemma_prefix_trans(a: Seq<CandidateModel>, b: Seq<CandidateModel>, c: Seq<CandidateModel>)
    requires
        a.is_prefix_of(b),
        b.is_prefix_of(c),
    ensures
        a.is_prefix_of(c),
{
    assert(a =~= c.subrange(0, a.len() as int));
}

proof fn lemma_prefix_append(a: Seq<CandidateModel>, b: Seq<CandidateModel>)
    ensures
        a.is_prefix_of(a + b),
{
    assert(a =~= (a + b).subrange(0, a.len() as int));
}

proof fn lemma_expand_prefix(cs: Seq<CandidateModel>, k1: int, k2: int)
    requires
        0 <= k1 <= k2,
    ensures
        expand(cs, k1).is_prefix_of(expand(cs, k2)),
    decreases k2,
{
    if k1 < k2 {
        lemma_expand_prefix(cs, k1, k2 - 1);
        lemma_prefix_append(expand(cs, k2 - 1), next_gen_of(cs[k2 - 1]));
        lemma_prefix_trans(expand(cs, k1), expand(cs, k2 - 1), expand(cs, k2));
    } else {
        assert(expand(cs, k1) =~= expand(cs, k2).subrange(0, expand(cs, k1).len() as int));
    }
}

proof fn lemma_visits_prefix(root: CandidateModel, d1: nat, d2: nat)
    requires
        d1 <= d2,
    ensures
        visits(root, d1).is_prefix_of(visits(root, d2)),
    decreases d2,
{
    if d1 < d2 {
        lemma_visits_prefix(root, d1, (d2 - 1) as nat);
        lemma_prefix_append(visits(root, (d2 - 1) as nat), level(root, d2));
        lemma_prefix_trans(visits(root, d1), visits(root, (d2 - 1) as nat), visits(root, d2));
    } else {
        assert(visits(root, d1) =~= visits(root, d2).subrange(0, visits(root, d1).len() as int));
    }
}

/// Once an exact match has been met, meeting more candidates changes nothing.
proof fn lemma_first_exact_extends(v: Seq<CandidateModel>, w: Seq<CandidateModel>, goal: u32)
    requires
        v.is_prefix_of(w),
        first_exact(v, goal) is Some,
    ensures
        first_exact(w, goal) == first_exact(v, goal),
    decreases w.len(),
{
    if w.len() > v.len() {
        assert(v =~= w.drop_last().subrange(0, v.len() as int));
        lemma_first_exact_extends(v, w.drop_last(), goal);
    } else {
        assert(v =~= w);
    }
}

/// The candidates met once the children of candidate `k` at depth `d` are
/// done are the first ones that the whole search meets.
proof fn lemma_prefix_trans_to_full(root: CandidateModel, d: nat, n: nat, k: int)
    requires
        d < n,
        0 <= k < level(root, d).len(),
    ensures
        (visits(root, d) + expand(level(root, d), k) + next_gen_of(level(root, d)[k])).is_prefix_of(
            visits(root, n),
        ),
{
    let lvl = level(root, d);
    let seen = visits(root, d);
    lemma_expand_prefix(lvl, k + 1, lvl.len() as int);
    assert(level(root, d + 1) == expand(lvl, lvl.len() as int));
    assert(seen + expand(lvl, k) + next_gen_of(lvl[k]) =~= seen + expand(lvl, k + 1));
    lemma_prefix_concat(seen, expand(lvl, k + 1), level(root, d + 1));
    assert(visits(root, d + 1) == seen + level(root, d + 1));
    lemma_visits_prefix(root, d + 1, n);
    lemma_prefix_trans(seen + expand(lvl, k + 1), visits(root, d + 1), visits(root, n));
}

/// Meets the candidates of `kids` in order, after those of `base`: returns
/// the first exact match, or else keeps `best` up to date and appends every
/// one of them to `next`.
fn meet_children(
    kids: &Vec<Candidate>,
    goal: u32,
    best: &mut Option<Candidate>,
    next: &mut Vec<Candidate>,
    base: Ghost<Seq<CandidateModel>>,
) -> (found: Option<Candidate>)
    requires
        forall|i: int| 0 <= i < kids@.len() ==> (#[trigger] kids@[i]).wf(),
        forall|i: int| 0 <= i < old(next)@.len() ==> (#[trigger] old(next)@[i]).wf(),
        first_exact(base@, goal) is None,
        opt_view(*old(best)) == best_of(base@, goal),
    ensures
        match found {
            Some(c) => first_exact(base@ + kids@.map_values(|c: Candidate| candidate_view(c)), goal) == Some(c@),
            None => {
                &&& first_exact(base@ + kids@.map_values(|c: Candidate| candidate_view(c)), goal) is None
                &&& opt_view(*final(best)) == best_of(base@ + kids@.map_values(|c: Candidate| candidate_view(c)), goal)
                &&& final(next)@.map_values(|c: Candidate| candidate_view(c)) == old(next)@.map_values(
                    |c: Candidate| candidate_view(c),
                ) + kids@.map_values(|c: Candidate| candidate_view(c))
                &&& forall|i: int| 0 <= i < final(next)@.len() ==> (#[trigger] final(next)@[i]).wf()
            },
        },
{
    let ghost kv = kids@.map_values(|c: Candidate| candidate_view(c));
    let ghost start = next@.map_values(|c: Candidate| candidate_view(c));
    let mut m: usize = 0;
    while m < kids.len()
        invariant
            m <= kids@.len(),
            kv == kids@.map_values(|c: Candidate| candidate_view(c)),
            forall|i: int| 0 <= i < kids@.len() ==> (#[trigger] kids@[i]).wf(),
            next@.map_values(|c: Candidate| candidate_view(c)) == start + kv.take(m as int),
            forall|i: int| 0 <= i < next@.len() ==> (#[trigger] next@[i]).wf(),
            first_exact(base@ + kv.take(m as int), goal) is None,
            opt_view(*best) == best_of(base@ + kv.take(m as int), goal),
        decreases kids@.len() - m,
    {
        let ghost met = base@ + kv.take(m as int + 1);
        proof {
            assert(kids@[m as int]@ == kv[m as int]);
            assert(met.drop_last() =~= base@ + kv.take(m as int));
            assert(met.last() == kv[m as int]);
        }
        let d = kids[m].distance(goal);
        if d == 0 {
            proof {
                assert(first_exact(met, goal) == Some(kv[m as int]));
                lemma_prefix_concat(base@, kv.take(m as int + 1), kv);
                lemma_first_exact_extends(met, base@ + kv, goal);
            }
            return Some(kids[m].duplicate());
        }
        if d < best_distance(best, goal) {
            *best = Some(kids[m].duplicate());
        }
        let ghost before = next@;
        let child = kids[m].duplicate();
        next.push(child);
        proof {
            assert(child@ == kv[m as int]);
            assert(before.map_values(|c: Candidate| candidate_view(c)) == start + kv.take(m as int));
            assert(next@ == before.push(child));
            assert(next@.map_values(|c: Candidate| candidate_view(c)) =~= before.map_values(
                |c: Candidate| candidate_view(c),
            ).push(child@));
            assert(next@.map_values(|c: Candidate| candidate_view(c)) =~= start + kv.take(m as int + 1));
        }
        m = m + 1;
    }
    proof {
        assert(kv.take(kids@.len() as int) =~= kv);
    }
    None
}

/// The outcome of the search depends only on the goal and on the multiset of
/// source numbers: running it again on the same numbers, in the same or in
/// any other order, reports the same candidate.
pub proof fn lemma_solution_deterministic(goal: u32, s1: Seq<u32>, s2: Seq<u32>)
    requires
        s1.to_multiset() == s2.to_multiset(),
    ensures
        solution(goal, s1) == solution(goal, s2),
{
    let leq = |a: u32, b: u32| a <= b;
    assert(vstd::relations::total_ordering(leq));
    s1.lemma_sort_by_ensures(leq);
    s2.lemma_sort_by_ensures(leq);
    vstd::seq_lib::lemma_sorted_unique(ascending(s1), ascending(s2), leq);
    s1.to_multiset_ensures();
    s2.to_multiset_ensures();
    assert(root_of(s1) == root_of(s2));
}

/// The distance of the best candidate kept so far.
fn best_distance(best: &Option<Candidate>, goal: u32) -> (r: u32)
    ensures
        r == best_dist(opt_view(*best), goal),
{
    match best {
        Some(c) => c.distance(goal),
        None => goal,
    }
}

/// Searches breadth first, from the candidate that holds all of `numbers`,
/// for a sequence of operations whose result is `goal`. Returns the first
/// exact match met; otherwise the candidate that came closest (the first of
/// them), if any came closer than `goal` itself; otherwise `None`, as when
/// `numbers` is empty.
#[verifier::loop_isolation(false)]
pub fn solve(goal: u32, numbers: Vec<u32>) -> (r: Option<Candidate>)
    ensures
        opt_view(r) == solution(goal, numbers@),
{
    let n = numbers.len();
    let ghost src = numbers@;
    let root_candidate = Candidate::new(NumberList::new(numbers));
    let ghost root = root_candidate@;
    let ghost full = visits(root, n as nat);
    let mut current: Vec<Candidate> = Vec::new();
    current.push(root_candidate);
    let mut best: Option<Candidate> = None;
    let mut depth: usize = 0;
    proof {
        assert(current@.map_values(|c: Candidate| candidate_view(c)) =~= level(root, 0));
        assert(visits(root, 0) =~= Seq::<CandidateModel>::empty());
    }
    while depth < n
        invariant
            depth <= n,
            root == root_of(src),
            current@.map_values(|c: Candidate| candidate_view(c)) == level(root, depth as nat),
            forall|i: int| 0 <= i < current@.len() ==> (#[trigger] current@[i]).wf(),
            first_exact(visits(root, depth as nat), goal) is None,
            opt_view(best) == best_of(visits(root, depth as nat), goal),
        decreases n - depth,
    {
        let ghost lvl = level(root, depth as nat);
        let ghost seen = visits(root, depth as nat);
        let mut next: Vec<Candidate> = Vec::new();
        let mut k: usize = 0;
        while k < current.len()
            invariant
                k <= current@.len(),
                current@.map_values(|c: Candidate| candidate_view(c)) == lvl,
                next@.map_values(|c: Candidate| candidate_view(c)) == expand(lvl, k as int),
                forall|i: int| 0 <= i < next@.len() ==> (#[trigger] next@[i]).wf(),
                first_exact(seen + expand(lvl, k as int), goal) is None,
                opt_view(best) == best_of(seen + expand(lvl, k as int), goal),
            decreases current@.len() - k,
        {
            let kids = current[k].successors();
            let ghost kv = next_gen_of(lvl[k as int]);
            let ghost base = seen + expand(lvl, k as int);
            proof {
                assert(current@[k as int]@ == lvl[k as int]);
            }
            let found = meet_children(&kids, goal, &mut best, &mut next, Ghost(base));
            if let Some(c) = found {
                proof {
                    lemma_prefix_trans_to_full(root, depth as nat, n as nat, k as int);
                    lemma_first_exact_extends(base + kv, full, goal);
                }
                return Some(c);
            }
            proof {
                assert(base + kv =~= seen + expand(lvl, k as int + 1));
                assert(expand(lvl, k as int) + kv =~= expand(lvl, k as int + 1));
            }
            k = k + 1;
        }
        proof {
            assert(expand(lvl, current@.len() as int) == level(root, depth as nat + 1));
            assert(visits(root, depth as nat + 1) == seen + level(root, depth as nat + 1));
        }
        current = next;
        depth = depth + 1;
    }
    best
}

} // verus!
