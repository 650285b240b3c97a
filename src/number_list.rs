//! The multiset of numbers that are still available for picking.
use vstd::prelude::*;

verus! {

/// Whether `s` is in ascending order.
pub open spec fn sorted(s: Seq<u32>) -> bool {
    forall|i: int, j: int| 0 <= i < j < s.len() ==> s[i] <= s[j]
}

/// The values of `s` in ascending order.
pub open spec fn ascending(s: Seq<u32>) -> Seq<u32> {
    s.sort_by(|a: u32, b: u32| a <= b)
}

/// The sorted permutation of a sequence is unique: `ascending(s)` is the one.
proof fn lemma_ascending_unique(s: Seq<u32>, t: Seq<u32>)
    requires
        sorted(t),
        t.to_multiset() == s.to_multiset(),
    ensures
        t == ascending(s),
{
    let leq = |a: u32, b: u32| a <= b;
    assert(vstd::relations::total_ordering(leq));
    s.lemma_sort_by_ensures(leq);
    assert(vstd::relations::sorted_by(t, leq));
    vstd::seq_lib::lemma_sorted_unique(t, ascending(s), leq);
}

/// Whether position `i` of `s` holds the first of a run of equal values.
pub open spec fn starts_run(s: Seq<u32>, i: int) -> bool {
    i == 0 || s[i - 1] != s[i]
}

/// The picks offered by the first `n` positions of `s`: one `(value, rest)`
/// pair for each position that starts a run, `rest` being `s` without that
/// one occurrence.
pub open spec fn picks(s: Seq<u32>, n: int) -> Seq<(u32, Seq<u32>)>
    decreases n,
{
    if n <= 0 {
        Seq::empty()
    } else {
        picks(s, n - 1) + if starts_run(s, n - 1) {
            seq![(s[n - 1], s.remove(n - 1))]
        } else {
            Seq::empty()
        }
    }
}

/// Every `(value, rest)` pair that can be picked from the sorted list `s`,
/// one per distinct value, in ascending order of value.
pub open spec fn possibilities(s: Seq<u32>) -> Seq<(u32, Seq<u32>)> {
    picks(s, s.len() as int)
}

/// A pick seen through views.
pub open spec fn pick_view(p: (u32, NumberList)) -> (u32, Seq<u32>) {
    (p.0, p.1@)
}

/// A list of non-negative integers, kept sorted so that equal values are
/// adjacent. Two lists holding the same multiset of values are equal.
#[derive(Debug, Hash, Clone, PartialEq, Eq)]
pub struct NumberList {
    numbers: Vec<u32>,
}

impl View for NumberList {
    type V = Seq<u32>;

    closed spec fn view(&self) -> Seq<u32> {
        self.numbers@
    }
}

/// Relies on `slice::sort`: afterwards the values are in ascending order and
/// are a permutation of those before.
#[verifier::external_body]
fn sort_values(v: &mut Vec<u32>)
    ensures
        sorted(final(v)@),
        final(v)@.to_multiset() == old(v)@.to_multiset(),
{
    v.sort();
}

proof fn lemma_remove_sorted(s: Seq<u32>, k: int)
    requires
        sorted(s),
        0 <= k < s.len(),
    ensures
        sorted(s.remove(k)),
{
    let r = s.remove(k);
    assert forall|i: int, j: int| 0 <= i < j < r.len() implies r[i] <= r[j] by {
        let a = if i < k { i } else { i + 1 };
        let b = if j < k { j } else { j + 1 };
        assert(r[i] == s[a] && r[j] == s[b]);
    }
}

/// Whether `p` is the pick of a position below `n` that starts a run of `s`.
pub open spec fn picked_from(s: Seq<u32>, n: int, p: (u32, Seq<u32>)) -> bool {
    exists|k: int| 0 <= k < n && starts_run(s, k) && p == (s[k], s.remove(k))
}

/// Each pick among the first `n` positions comes from a position that starts a run.
proof fn lemma_picks_origin(s: Seq<u32>, n: int)
    requires
        0 <= n <= s.len(),
    ensures
        forall|j: int| 0 <= j < picks(s, n).len() ==> picked_from(s, n, #[trigger] picks(s, n)[j]),
    decreases n,
{
    if n > 0 {
        lemma_picks_origin(s, n - 1);
        let prev = picks(s, n - 1);
        let cur = picks(s, n);
        assert forall|j: int| 0 <= j < cur.len() implies picked_from(s, n, #[trigger] cur[j]) by {
            if j < prev.len() {
                assert(cur[j] == prev[j]);
                assert(picked_from(s, n - 1, prev[j]));
                let k = choose|k: int| 0 <= k < n - 1 && starts_run(s, k) && prev[j] == (s[k], s.remove(k));
                assert(0 <= k < n && starts_run(s, k) && cur[j] == (s[k], s.remove(k)));
            } else {
                assert(starts_run(s, n - 1));
                assert(cur[j] == (s[n - 1], s.remove(n - 1)));
            }
        }
    }
}

/// The values picked among the first `n` positions strictly increase.
#[verifier::spinoff_prover]
proof fn lemma_picks_increase(s: Seq<u32>, n: int)
    requires
        sorted(s),
        0 <= n <= s.len(),
    ensures
        forall|i: int, j: int|
            0 <= i < j < picks(s, n).len() ==> #[trigger] picks(s, n)[i].0 < #[trigger] picks(s, n)[j].0,
        forall|j: int| 0 <= j < picks(s, n).len() ==> #[trigger] picks(s, n)[j].0 <= s[n - 1],
    decreases n,
{
    if n > 0 {
        lemma_picks_increase(s, n - 1);
        lemma_picks_origin(s, n);
        let prev = picks(s, n - 1);
        let cur = picks(s, n);
        assert forall|j: int| 0 <= j < cur.len() implies #[trigger] cur[j].0 <= s[n - 1] by {
            assert(picked_from(s, n, cur[j]));
            let k = choose|k: int| 0 <= k < n && starts_run(s, k) && cur[j] == (s[k], s.remove(k));
        }
        if starts_run(s, n - 1) {
            assert forall|j: int| 0 <= j < prev.len() implies #[trigger] cur[j].0 < s[n - 1] by {
                assert(cur[j] == prev[j]);
                if n >= 2 {
                    assert(s[n - 2] <= s[n - 1]);
                }
            }
            assert(cur[prev.len() as int].0 == s[n - 1]);
        } else {
            assert(cur =~= prev);
        }
    }
}

/// Every value among the first `n` positions is picked.
#[verifier::spinoff_prover]
proof fn lemma_picks_cover(s: Seq<u32>, n: int)
    requires
        0 <= n <= s.len(),
    ensures
        forall|k: int|
            #![trigger s[k]]
            0 <= k < n ==> exists|j: int| 0 <= j < picks(s, n).len() && #[trigger] picks(s, n)[j].0 == s[k],
    decreases n,
{
    if n > 0 {
        lemma_picks_cover(s, n - 1);
        let prev = picks(s, n - 1);
        let cur = picks(s, n);
        assert forall|k: int| #![trigger s[k]] 0 <= k < n implies exists|j: int|
            0 <= j < cur.len() && #[trigger] cur[j].0 == s[k] by {
            if k < n - 1 {
                let j = choose|j: int| 0 <= j < prev.len() && #[trigger] prev[j].0 == s[k];
                assert(cur[j] == prev[j]);
            } else if starts_run(s, k) {
                assert(cur[prev.len() as int].0 == s[k]);
            } else {
                let j = choose|j: int| 0 <= j < prev.len() && #[trigger] prev[j].0 == s[k - 1];
                assert(cur[j] == prev[j]);
            }
        }
    }
}

/// In a sorted list, each distinct value is offered as a pick exactly once,
/// however many times it occurs: the picked values strictly increase, they
/// are exactly the values of the list, and the rest of each pick is the list
/// with one occurrence of the picked value taken out.
pub proof fn lemma_one_pick_per_value(s: Seq<u32>)
    requires
        sorted(s),
    ensures
        forall|i: int, j: int|
            0 <= i < j < possibilities(s).len() ==> #[trigger] possibilities(s)[i].0
                < #[trigger] possibilities(s)[j].0,
        forall|v: u32|
            s.contains(v) <==> exists|i: int|
                0 <= i < possibilities(s).len() && #[trigger] possibilities(s)[i].0 == v,
        forall|i: int|
            0 <= i < possibilities(s).len() ==> (#[trigger] possibilities(s)[i]).1.to_multiset()
                == s.to_multiset().remove(possibilities(s)[i].0),
        forall|i: int|
            0 <= i < possibilities(s).len() ==> (#[trigger] possibilities(s)[i]).1.len() + 1 == s.len(),
{
    let p = possibilities(s);
    lemma_picks_origin(s, s.len() as int);
    lemma_picks_increase(s, s.len() as int);
    lemma_picks_cover(s, s.len() as int);
    assert forall|v: u32| s.contains(v) implies exists|i: int|
        0 <= i < p.len() && #[trigger] p[i].0 == v by {
        let k = choose|k: int| 0 <= k < s.len() && s[k] == v;
        assert(s[k] == v);
    }
    assert forall|v: u32| (exists|i: int| 0 <= i < p.len() && #[trigger] p[i].0 == v) implies s.contains(v) by {
        let i = choose|i: int| 0 <= i < p.len() && #[trigger] p[i].0 == v;
        assert(picked_from(s, s.len() as int, p[i]));
        let k = choose|k: int| 0 <= k < s.len() && starts_run(s, k) && p[i] == (s[k], s.remove(k));
        assert(s[k] == v);
    }
    assert forall|i: int| 0 <= i < p.len() implies (#[trigger] p[i]).1.to_multiset()
        == s.to_multiset().remove(p[i].0) by {
        assert(picked_from(s, s.len() as int, p[i]));
        let k = choose|k: int| 0 <= k < s.len() && starts_run(s, k) && p[i] == (s[k], s.remove(k));
        s.to_multiset_ensures();
    }
    assert forall|i: int| 0 <= i < p.len() implies (#[trigger] p[i]).1.len() + 1 == s.len() by {
        assert(picked_from(s, s.len() as int, p[i]));
    }
}

impl NumberList {
    /// The list is well formed: sorted.
    pub open spec fn wf(&self) -> bool {
        sorted(self@)
    }

    /// Builds a list from any collection of values; the order of `numbers`
    /// carries no meaning.
    pub fn new(numbers: Vec<u32>) -> (r: NumberList)
        ensures
            r.wf(),
            r@ == ascending(numbers@),
    {
        let ghost given = numbers@;
        let mut numbers = numbers;
        sort_values(&mut numbers);
        proof {
            lemma_ascending_unique(given, numbers@);
        }
        NumberList { numbers }
    }

    /// A copy of the list.
    pub fn duplicate(&self) -> (r: NumberList)
        ensures
            r@ == self@,
    {
        let numbers = self.numbers.clone();
        proof {
            assert(numbers@ =~= self.numbers@);
        }
        NumberList { numbers }
    }

    /// Number of values in the list.
    pub fn len(&self) -> (r: usize)
        ensures
            r == self@.len(),
    {
        self.numbers.len()
    }

    /// Every `(value, rest)` pair usable as the next pick: one per distinct
    /// value rather than one per element.
    pub fn build_possibilities(&self) -> (r: Vec<(u32, NumberList)>)
        requires
            self.wf(),
        ensures
            r@.map_values(|p: (u32, NumberList)| pick_view(p)) == possibilities(self@),
            forall|i: int| 0 <= i < r@.len() ==> (#[trigger] r@[i]).1.wf(),
    {
        let n = self.numbers.len();
        let mut r: Vec<(u32, NumberList)> = Vec::new();
        let mut i: usize = 0;
        while i < n
            invariant
                i <= n,
                n == self@.len(),
                sorted(self@),
                r@.map_values(|p: (u32, NumberList)| pick_view(p)) == picks(self@, i as int),
                forall|k: int| 0 <= k < r@.len() ==> (#[trigger] r@[k]).1.wf(),
            decreases n - i,
        {
            if i == 0 || self.numbers[i - 1] != self.numbers[i] {
                let mut rest = self.numbers.clone();
                proof {
                    assert(rest@ =~= self.numbers@);
                }
                let v = rest.remove(i);
                proof {
                    lemma_remove_sorted(self@, i as int);
                }
                let ghost before = r@;
                r.push((v, NumberList { numbers: rest }));
                proof {
                    assert(r@.map_values(|p: (u32, NumberList)| pick_view(p)) =~= before.map_values(
                        |p: (u32, NumberList)| pick_view(p),
                    ).push((v, rest@)));
                }
            }
            proof {
                assert(picks(self@, i + 1) == picks(self@, i as int) + if starts_run(self@, i as int) {
                    seq![(self@[i as int], self@.remove(i as int))]
                } else {
                    Seq::<(u32, Seq<u32>)>::empty()
                });
            }
            i = i + 1;
        }
        r
    }
}

} // verus!
