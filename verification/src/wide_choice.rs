//! Split a choice that does not fit the head budget.
//!
//! One forward that shortens every option to the same prefix cannot see which
//! label is which. Each group stays inside the head budget. Options are
//! interleaved across groups so adjacent labels do not always compete in the
//! same first-round comparison. Questions that already fit are one group.

use vstd::prelude::*;

use crate::error::Error;
use crate::sequence::HEAD_INSTRUCTION_RESERVE;
use crate::text::{append_str, decimal, push_decimal, string_of};

verus! {

// ---------------------------------------------------------------------------
// Costs and budgets
// ---------------------------------------------------------------------------

/// Token budget of one group: the head budget less the instruction reserve, at least 1.
pub open spec fn group_budget(head_max_len: usize) -> int {
    if head_max_len > HEAD_INSTRUCTION_RESERVE {
        head_max_len - HEAD_INSTRUCTION_RESERVE
    } else {
        1
    }
}

/// Cost of one option inside a group: at least 1, at most the budget.
pub open spec fn clamped(cost: usize, budget: int) -> int {
    let c = if cost >= 1 {
        cost as int
    } else {
        1
    };
    if c <= budget {
        c
    } else {
        budget
    }
}

/// Sum of the raw option costs.
pub open spec fn total_cost(costs: Seq<usize>) -> int
    decreases costs.len(),
{
    if costs.len() == 0 {
        0
    } else {
        total_cost(costs.drop_last()) + costs.last()
    }
}

/// Clamped cost of the options a group holds.
pub open spec fn group_cost(group: Seq<usize>, costs: Seq<usize>, budget: int) -> int
    decreases group.len(),
{
    if group.len() == 0 {
        0
    } else {
        group_cost(group.drop_last(), costs, budget) + if group.last() < costs.len() {
            clamped(costs[group.last() as int], budget)
        } else {
            0
        }
    }
}

/// The indexes `0..n` in order.
pub open spec fn index_range(n: nat) -> Seq<usize> {
    Seq::new(n, |i: int| i as usize)
}

/// How often `x` occurs in a sequence.
pub open spec fn occ(s: Seq<usize>, x: usize) -> nat
    decreases s.len(),
{
    if s.len() == 0 {
        0
    } else {
        occ(s.drop_last(), x) + if s.last() == x {
            1nat
        } else {
            0nat
        }
    }
}

/// How often `x` occurs across all groups.
pub open spec fn occ_groups(gs: Seq<Seq<usize>>, x: usize) -> nat
    decreases gs.len(),
{
    if gs.len() == 0 {
        0
    } else {
        occ_groups(gs.drop_last(), x) + occ(gs.last(), x)
    }
}

/// Every index `0..n` occurs exactly once across the groups, and nothing else occurs.
pub open spec fn is_partition(gs: Seq<Seq<usize>>, n: nat) -> bool {
    forall|x: usize| #[trigger] occ_groups(gs, x) == if x < n {
        1nat
    } else {
        0nat
    }
}

/// Views of a vector of groups.
pub open spec fn group_views(v: Seq<Vec<usize>>) -> Seq<Seq<usize>> {
    v.map_values(|g: Vec<usize>| g@)
}

// ---------------------------------------------------------------------------
// Contiguous packing
// ---------------------------------------------------------------------------

/// Greedy contiguous packing after the first `k` options:
/// `(closed groups, open group, cost of the open group)`.
pub open spec fn sequential_state(costs: Seq<usize>, budget: int, k: nat) -> (
    Seq<Seq<usize>>,
    Seq<usize>,
    int,
)
    decreases k,
{
    if k == 0 {
        (Seq::empty(), Seq::empty(), 0)
    } else {
        let (groups, current, used) = sequential_state(costs, budget, (k - 1) as nat);
        let index = (k - 1) as usize;
        let cost = clamped(costs[k - 1], budget);
        if current.len() > 0 && used + cost > budget {
            (groups.push(current), seq![index], cost)
        } else {
            (groups, current.push(index), used + cost)
        }
    }
}

/// What contiguous packing returns.
pub open spec fn sequential_plan(costs: Seq<usize>, head_max_len: usize) -> Seq<Seq<usize>> {
    let budget = group_budget(head_max_len);
    if costs.len() == 0 {
        Seq::empty()
    } else if total_cost(costs) <= budget {
        seq![index_range(costs.len())]
    } else {
        let (groups, current, _) = sequential_state(costs, budget, costs.len());
        if current.len() > 0 {
            groups.push(current)
        } else {
            groups
        }
    }
}

// ---------------------------------------------------------------------------
// Interleaved packing
// ---------------------------------------------------------------------------

/// First bucket, starting at `index % g` and wrapping, whose used cost leaves
/// room for `cost`; the search has already skipped `offset` buckets.
pub open spec fn first_fit(used: Seq<int>, index: int, cost: int, budget: int, g: int, offset: int) -> Option<int>
    decreases g - offset,
{
    if offset >= g || g <= 0 {
        None
    } else {
        let bucket = (index + offset) % g;
        if used[bucket] + cost <= budget {
            Some(bucket)
        } else {
            first_fit(used, index, cost, budget, g, offset + 1)
        }
    }
}

/// Round-robin first-fit after the first `k` options: `(buckets, used costs)`,
/// or `None` once an option fits no bucket.
pub open spec fn interleaved_state(costs: Seq<usize>, budget: int, g: nat, k: nat) -> Option<
    (Seq<Seq<usize>>, Seq<int>),
>
    decreases k,
{
    if k == 0 {
        Some((Seq::new(g, |i: int| Seq::<usize>::empty()), Seq::new(g, |i: int| 0int)))
    } else {
        match interleaved_state(costs, budget, g, (k - 1) as nat) {
            None => None,
            Some((buckets, used)) => {
                let cost = clamped(costs[k - 1], budget);
                match first_fit(used, k - 1, cost, budget, g as int, 0) {
                    None => None,
                    Some(b) => Some(
                        (
                            buckets.update(b, buckets[b].push((k - 1) as usize)),
                            used.update(b, used[b] + cost),
                        ),
                    ),
                }
            },
        }
    }
}

/// Groups that are not empty, in order.
pub open spec fn nonempty_groups(gs: Seq<Seq<usize>>) -> Seq<Seq<usize>>
    decreases gs.len(),
{
    if gs.len() == 0 {
        Seq::empty()
    } else if gs.last().len() > 0 {
        nonempty_groups(gs.drop_last()).push(gs.last())
    } else {
        nonempty_groups(gs.drop_last())
    }
}

/// What interleaved packing into `g` buckets returns.
pub open spec fn interleaved_plan(costs: Seq<usize>, head_max_len: usize, g: nat) -> Option<
    Seq<Seq<usize>>,
> {
    if g == 0 || costs.len() == 0 {
        None
    } else {
        match interleaved_state(costs, group_budget(head_max_len), g, costs.len()) {
            None => None,
            Some((buckets, _)) => Some(nonempty_groups(buckets)),
        }
    }
}

/// What `plan_choice_groups` returns: contiguous packing when it yields at most
/// one group; otherwise the same number of interleaved groups when those exist.
pub open spec fn choice_plan(costs: Seq<usize>, head_max_len: usize) -> Seq<Seq<usize>> {
    let sequential = sequential_plan(costs, head_max_len);
    if sequential.len() <= 1 {
        sequential
    } else {
        match interleaved_plan(costs, head_max_len, sequential.len()) {
            Some(groups) if groups.len() == sequential.len() => groups,
            _ => sequential,
        }
    }
}

// ---------------------------------------------------------------------------
// Lemmas
// ---------------------------------------------------------------------------

proof fn lemma_occ_push(s: Seq<usize>, y: usize, x: usize)
    ensures
        occ(s.push(y), x) == occ(s, x) + if y == x {
            1nat
        } else {
            0nat
        },
{
    assert(s.push(y).drop_last() =~= s);
}

proof fn lemma_occ_groups_push(gs: Seq<Seq<usize>>, g: Seq<usize>, x: usize)
    ensures
        occ_groups(gs.push(g), x) == occ_groups(gs, x) + occ(g, x),
{
    assert(gs.push(g).drop_last() =~= gs);
}

proof fn lemma_occ_groups_update(gs: Seq<Seq<usize>>, b: int, g: Seq<usize>, x: usize)
    requires
        0 <= b < gs.len(),
    ensures
        occ_groups(gs.update(b, g), x) + occ(gs[b], x) == occ_groups(gs, x) + occ(g, x),
    decreases gs.len(),
{
    let u = gs.update(b, g);
    if b == gs.len() - 1 {
        assert(u.drop_last() =~= gs.drop_last());
    } else {
        assert(u.drop_last() =~= gs.drop_last().update(b, g));
        lemma_occ_groups_update(gs.drop_last(), b, g, x);
    }
}

proof fn lemma_occ_groups_empty(g: nat, x: usize)
    ensures
        occ_groups(Seq::new(g, |i: int| Seq::<usize>::empty()), x) == 0,
    decreases g,
{
    if g > 0 {
        let gs = Seq::new(g, |i: int| Seq::<usize>::empty());
        assert(gs.drop_last() =~= Seq::new((g - 1) as nat, |i: int| Seq::<usize>::empty()));
        lemma_occ_groups_empty((g - 1) as nat, x);
    }
}

proof fn lemma_occ_range(n: nat, x: usize)
    requires
        n <= usize::MAX,
    ensures
        occ(index_range(n), x) == if x < n {
            1nat
        } else {
            0nat
        },
    decreases n,
{
    if n > 0 {
        assert(index_range(n).drop_last() =~= index_range((n - 1) as nat));
        assert(index_range(n).last() == (n - 1) as usize);
        lemma_occ_range((n - 1) as nat, x);
    }
}

proof fn lemma_group_cost_push(group: Seq<usize>, y: usize, costs: Seq<usize>, budget: int)
    requires
        y < costs.len(),
    ensures
        group_cost(group.push(y), costs, budget) == group_cost(group, costs, budget) + clamped(
            costs[y as int],
            budget,
        ),
{
    assert(group.push(y).drop_last() =~= group);
}

proof fn lemma_total_prefix(costs: Seq<usize>, k: int)
    requires
        0 <= k <= costs.len(),
    ensures
        total_cost(costs.take(k)) <= total_cost(costs),
    decreases costs.len() - k,
{
    if k < costs.len() {
        lemma_total_prefix(costs, k + 1);
        assert(costs.take(k + 1).drop_last() =~= costs.take(k));
    } else {
        assert(costs.take(k) =~= costs);
    }
}

/// Invariant of contiguous packing after `k` options.
proof fn lemma_sequential_state(costs: Seq<usize>, budget: int, k: nat)
    requires
        budget >= 1,
        costs.len() <= usize::MAX,
        k <= costs.len(),
    ensures
        ({
            let (groups, current, used) = sequential_state(costs, budget, k);
            &&& forall|x: usize| #[trigger] occ_groups(groups.push(current), x) == if x < k {
                1nat
            } else {
                0nat
            }
            &&& forall|i: int| 0 <= i < groups.len() ==> #[trigger] groups[i].len() > 0
            &&& forall|i: int|
                0 <= i < groups.len() ==> #[trigger] group_cost(groups[i], costs, budget)
                    <= budget
            &&& used == group_cost(current, costs, budget)
            &&& 0 <= used <= budget
            &&& (k > 0 ==> current.len() > 0)
            &&& forall|j: int| 0 <= j < current.len() ==> #[trigger] current[j] < k
        }),
    decreases k,
{
    if k == 0 {
        assert forall|x: usize| #[trigger]
            occ_groups(Seq::<Seq<usize>>::empty().push(Seq::<usize>::empty()), x) == 0 by {
            lemma_occ_groups_push(Seq::empty(), Seq::empty(), x);
        }
    } else {
        lemma_sequential_state(costs, budget, (k - 1) as nat);
        let (groups, current, used) = sequential_state(costs, budget, (k - 1) as nat);
        let index = (k - 1) as usize;
        let cost = clamped(costs[k - 1], budget);
        if current.len() > 0 && used + cost > budget {
            let g2 = groups.push(current);
            assert forall|x: usize| #[trigger]
                occ_groups(g2.push(seq![index]), x) == if x < k {
                    1nat
                } else {
                    0nat
                } by {
                lemma_occ_groups_push(g2, seq![index], x);
                lemma_occ_push(Seq::empty(), index, x);
                assert(seq![index] =~= Seq::<usize>::empty().push(index));
                assert(occ(Seq::<usize>::empty(), x) == 0);
            }
            assert forall|i: int| 0 <= i < g2.len() implies #[trigger] group_cost(
                g2[i],
                costs,
                budget,
            ) <= budget by {
                if i < groups.len() {
                    assert(g2[i] == groups[i]);
                }
            }
            assert forall|i: int| 0 <= i < g2.len() implies #[trigger] g2[i].len() > 0 by {
                if i < groups.len() {
                    assert(g2[i] == groups[i]);
                }
            }
            lemma_group_cost_push(Seq::empty(), index, costs, budget);
            assert(seq![index] =~= Seq::<usize>::empty().push(index));
            assert(group_cost(Seq::<usize>::empty(), costs, budget) == 0);
            assert(cost == group_cost(seq![index], costs, budget));
            assert(forall|j: int| 0 <= j < 1 ==> #[trigger] seq![index][j] < k);
        } else {
            let c2 = current.push(index);
            assert forall|x: usize| #[trigger]
                occ_groups(groups.push(c2), x) == if x < k {
                    1nat
                } else {
                    0nat
                } by {
                lemma_occ_groups_push(groups, c2, x);
                lemma_occ_groups_push(groups, current, x);
                lemma_occ_push(current, index, x);
            }
            lemma_group_cost_push(current, index, costs, budget);
            if current.len() == 0 {
                assert(used == 0);
            }
            assert(used + cost <= budget);
            assert forall|j: int| 0 <= j < c2.len() implies #[trigger] c2[j] < k by {
                if j < current.len() {
                    assert(c2[j] == current[j]);
                }
            }
        }
    }
}

proof fn lemma_nonempty_groups_identity(gs: Seq<Seq<usize>>)
    requires
        forall|i: int| 0 <= i < gs.len() ==> #[trigger] gs[i].len() > 0,
    ensures
        nonempty_groups(gs) == gs,
    decreases gs.len(),
{
    if gs.len() > 0 {
        lemma_nonempty_groups_identity(gs.drop_last());
        assert(gs.drop_last().push(gs.last()) =~= gs);
    }
}

proof fn lemma_first_fit(used: Seq<int>, index: int, cost: int, budget: int, g: int, offset: int)
    requires
        g == used.len(),
        0 <= offset,
        index >= 0,
    ensures
        first_fit(used, index, cost, budget, g, offset) matches Some(b) ==> 0 <= b < g && used[b]
            + cost <= budget,
        g > 0 && offset == 0 && index < g && used[index] + cost <= budget ==> first_fit(
            used,
            index,
            cost,
            budget,
            g,
            offset,
        ) == Some(index),
    decreases g - offset,
{
    if offset < g && g > 0 {
        lemma_first_fit(used, index, cost, budget, g, offset + 1);
        if offset == 0 && index < g {
            vstd::arithmetic::div_mod::lemma_small_mod(index as nat, g as nat);
            assert((index + 0) % g == index);
        }
    }
}

/// Invariant of interleaved packing after `k` options.
proof fn lemma_interleaved_state(costs: Seq<usize>, budget: int, g: nat, k: nat)
    requires
        budget >= 1,
        costs.len() <= usize::MAX,
        k <= costs.len(),
    ensures
        interleaved_state(costs, budget, g, k) matches Some((buckets, used)) ==> {
            &&& buckets.len() == g
            &&& used.len() == g
            &&& forall|x: usize| #[trigger] occ_groups(buckets, x) == if x < k {
                1nat
            } else {
                0nat
            }
            &&& forall|b: int|
                0 <= b < g ==> #[trigger] used[b] == group_cost(buckets[b], costs, budget)
                    && 0 <= used[b] <= budget
            &&& forall|b: int| 0 <= b < g && b < k ==> #[trigger] buckets[b].len() > 0
        },
    decreases k,
{
    if k == 0 {
        let buckets = Seq::new(g, |i: int| Seq::<usize>::empty());
        assert forall|x: usize| #[trigger] occ_groups(buckets, x) == 0 by {
            lemma_occ_groups_empty(g, x);
        }
    } else {
        lemma_interleaved_state(costs, budget, g, (k - 1) as nat);
        match interleaved_state(costs, budget, g, (k - 1) as nat) {
            None => {},
            Some((buckets, used)) => {
                let cost = clamped(costs[k - 1], budget);
                let index = (k - 1) as usize;
                lemma_first_fit(used, k - 1, cost, budget, g as int, 0);
                match first_fit(used, k - 1, cost, budget, g as int, 0) {
                    None => {},
                    Some(b) => {
                        let nb = buckets.update(b, buckets[b].push(index));
                        let nu = used.update(b, used[b] + cost);
                        assert forall|x: usize| #[trigger] occ_groups(nb, x) == if x < k {
                            1nat
                        } else {
                            0nat
                        } by {
                            lemma_occ_groups_update(buckets, b, buckets[b].push(index), x);
                            lemma_occ_push(buckets[b], index, x);
                        }
                        assert forall|c: int| 0 <= c < g implies #[trigger] nu[c] == group_cost(
                            nb[c],
                            costs,
                            budget,
                        ) && 0 <= nu[c] <= budget by {
                            if c == b {
                                lemma_group_cost_push(buckets[b], index, costs, budget);
                                assert(used[b] == group_cost(buckets[b], costs, budget));
                            } else {
                                assert(nu[c] == used[c]);
                                assert(nb[c] == buckets[c]);
                                assert(used[c] == group_cost(buckets[c], costs, budget));
                            }
                        }
                        assert forall|c: int| 0 <= c < g && c < k implies #[trigger] nb[c].len()
                            > 0 by {
                            if c == b {
                            } else if c < k - 1 {
                                assert(nb[c] == buckets[c]);
                                assert(buckets[c].len() > 0);
                            } else {
                                // c == k - 1: bucket `index` was tried first and was too full
                                // for this option, so an earlier option already sits there.
                                assert(c == k - 1);
                                assert(used[c] + cost > budget) by {
                                    if used[c] + cost <= budget {
                                        assert(first_fit(used, k - 1, cost, budget, g as int, 0)
                                            == Some(c));
                                    }
                                }
                                assert(cost <= budget);
                                assert(used[c] > 0);
                                assert(nb[c] == buckets[c]);
                                assert(used[c] == group_cost(buckets[c], costs, budget));
                                if buckets[c].len() == 0 {
                                    assert(group_cost(buckets[c], costs, budget) == 0);
                                }
                            }
                        }
                    },
                }
            },
        }
    }
}

/// Laws of contiguous packing.
proof fn lemma_sequential_plan(costs: Seq<usize>, head_max_len: usize)
    requires
        costs.len() <= usize::MAX,
    ensures
        is_partition(sequential_plan(costs, head_max_len), costs.len()),
        forall|i: int|
            0 <= i < sequential_plan(costs, head_max_len).len() ==> #[trigger] sequential_plan(
                costs,
                head_max_len,
            )[i].len() > 0,
        sequential_plan(costs, head_max_len).len() > 1 ==> forall|i: int|
            0 <= i < sequential_plan(costs, head_max_len).len() ==> #[trigger] group_cost(
                sequential_plan(costs, head_max_len)[i],
                costs,
                group_budget(head_max_len),
            ) <= group_budget(head_max_len),
        sequential_plan(costs, head_max_len).len() <= costs.len(),
{
    let budget = group_budget(head_max_len);
    let plan = sequential_plan(costs, head_max_len);
    if costs.len() == 0 {
        assert forall|x: usize| #[trigger] occ_groups(plan, x) == 0 by {}
    } else if total_cost(costs) <= budget {
        assert forall|x: usize| #[trigger] occ_groups(plan, x) == if x < costs.len() {
            1nat
        } else {
            0nat
        } by {
            lemma_occ_groups_push(Seq::empty(), index_range(costs.len()), x);
            assert(plan =~= Seq::<Seq<usize>>::empty().push(index_range(costs.len())));
            lemma_occ_range(costs.len(), x);
        }
    } else {
        lemma_sequential_state(costs, budget, costs.len());
        let (groups, current, used) = sequential_state(costs, budget, costs.len());
        assert(plan == groups.push(current));
        assert forall|i: int| 0 <= i < plan.len() implies #[trigger] plan[i].len() > 0 by {
            if i < groups.len() {
                assert(plan[i] == groups[i]);
            }
        }
        assert forall|i: int| 0 <= i < plan.len() implies #[trigger] group_cost(
            plan[i],
            costs,
            budget,
        ) <= budget by {
            if i < groups.len() {
                assert(plan[i] == groups[i]);
            }
        }
        lemma_groups_le_count(plan, costs.len());
    }
}

/// Nonempty groups that partition `0..n` number at most `n`.
proof fn lemma_groups_le_count(gs: Seq<Seq<usize>>, n: nat)
    requires
        is_partition(gs, n),
        forall|i: int| 0 <= i < gs.len() ==> #[trigger] gs[i].len() > 0,
    ensures
        gs.len() <= n,
{
    // Each group holds a distinct index below n: its first element.
    let firsts = Seq::new(gs.len(), |i: int| gs[i][0]);
    assert forall|i: int, j: int| 0 <= i < j < gs.len() implies firsts[i] != firsts[j] by {
        let x = gs[i][0];
        if gs[j][0] == x {
            lemma_occ_at_least_two(gs, i, j, x);
        }
    }
    assert forall|i: int| 0 <= i < gs.len() implies #[trigger] firsts[i] < n by {
        let x = gs[i][0];
        lemma_occ_member(gs, i, 0, x);
    }
    lemma_distinct_below(firsts, n);
}

proof fn lemma_occ_pos(s: Seq<usize>, j: int)
    requires
        0 <= j < s.len(),
    ensures
        occ(s, s[j]) >= 1,
    decreases s.len(),
{
    if j < s.len() - 1 {
        lemma_occ_pos(s.drop_last(), j);
    }
}

proof fn lemma_occ_groups_ge(gs: Seq<Seq<usize>>, i: int, x: usize)
    requires
        0 <= i < gs.len(),
    ensures
        occ_groups(gs, x) >= occ(gs[i], x),
    decreases gs.len(),
{
    if i < gs.len() - 1 {
        lemma_occ_groups_ge(gs.drop_last(), i, x);
    }
}

proof fn lemma_occ_groups_two(gs: Seq<Seq<usize>>, i: int, j: int, x: usize)
    requires
        0 <= i < j < gs.len(),
    ensures
        occ_groups(gs, x) >= occ(gs[i], x) + occ(gs[j], x),
    decreases gs.len(),
{
    if j < gs.len() - 1 {
        lemma_occ_groups_two(gs.drop_last(), i, j, x);
    } else {
        lemma_occ_groups_ge(gs.drop_last(), i, x);
    }
}

proof fn lemma_occ_member(gs: Seq<Seq<usize>>, i: int, j: int, x: usize)
    requires
        0 <= i < gs.len(),
        0 <= j < gs[i].len(),
        gs[i][j] == x,
    ensures
        occ_groups(gs, x) >= 1,
{
    lemma_occ_pos(gs[i], j);
    lemma_occ_groups_ge(gs, i, x);
}

proof fn lemma_occ_at_least_two(gs: Seq<Seq<usize>>, i: int, j: int, x: usize)
    requires
        0 <= i < j < gs.len(),
        gs[i].len() > 0,
        gs[j].len() > 0,
        gs[i][0] == x,
        gs[j][0] == x,
    ensures
        occ_groups(gs, x) >= 2,
{
    lemma_occ_pos(gs[i], 0);
    lemma_occ_pos(gs[j], 0);
    lemma_occ_groups_two(gs, i, j, x);
}

/// A sequence of pairwise distinct values below `n` has at most `n` entries.
proof fn lemma_distinct_below(s: Seq<usize>, n: nat)
    requires
        forall|i: int, j: int| 0 <= i < j < s.len() ==> s[i] != s[j],
        forall|i: int| 0 <= i < s.len() ==> #[trigger] s[i] < n,
    ensures
        s.len() <= n,
{
    let set = s.to_set();
    assert(s.no_duplicates());
    s.unique_seq_to_set();
    assert(set.subset_of(Set::new(|x: usize| x < n)));
    lemma_below_set_len(n);
    vstd::set_lib::lemma_len_subset(set, Set::new(|x: usize| x < n));
}

proof fn lemma_below_set_len(n: nat)
    ensures
        Set::new(|x: usize| x < n).finite(),
        Set::new(|x: usize| x < n).len() <= n,
    decreases n,
{
    if n == 0 {
        assert(Set::new(|x: usize| x < 0nat) =~= Set::<usize>::empty());
    } else {
        lemma_below_set_len((n - 1) as nat);
        let prev = Set::new(|x: usize| x < (n - 1) as nat);
        let cur = Set::new(|x: usize| x < n);
        if n - 1 <= usize::MAX {
            assert(cur =~= prev.insert((n - 1) as usize));
        } else {
            assert(cur =~= prev);
        }
    }
}

/// Laws of interleaved packing.
proof fn lemma_interleaved_plan(costs: Seq<usize>, head_max_len: usize, g: nat)
    requires
        g <= costs.len(),
        costs.len() <= usize::MAX,
    ensures
        interleaved_plan(costs, head_max_len, g) matches Some(groups) ==> {
            &&& groups.len() == g
            &&& is_partition(groups, costs.len())
            &&& forall|i: int| 0 <= i < groups.len() ==> #[trigger] groups[i].len() > 0
            &&& forall|i: int|
                0 <= i < groups.len() ==> #[trigger] group_cost(
                    groups[i],
                    costs,
                    group_budget(head_max_len),
                ) <= group_budget(head_max_len)
        },
{
    if g > 0 && costs.len() > 0 {
        let budget = group_budget(head_max_len);
        lemma_interleaved_state(costs, budget, g, costs.len());
        match interleaved_state(costs, budget, g, costs.len()) {
            None => {},
            Some((buckets, used)) => {
                assert forall|i: int| 0 <= i < buckets.len() implies #[trigger] buckets[i].len()
                    > 0 by {
                    assert(i < costs.len());
                }
                lemma_nonempty_groups_identity(buckets);
                assert forall|i: int| 0 <= i < buckets.len() implies #[trigger] group_cost(
                    buckets[i],
                    costs,
                    budget,
                ) <= budget by {
                    assert(used[i] == group_cost(buckets[i], costs, budget));
                }
            },
        }
    }
}

/// Option indexes of a group in increasing order.
pub open spec fn ascending(g: Seq<usize>) -> bool {
    forall|i: int, j: int| 0 <= i < j < g.len() ==> g[i] < g[j]
}

proof fn lemma_sequential_ascending(costs: Seq<usize>, budget: int, k: nat)
    requires
        costs.len() <= usize::MAX,
        k <= costs.len(),
    ensures
        ({
            let (groups, current, _) = sequential_state(costs, budget, k);
            &&& forall|i: int| 0 <= i < groups.len() ==> ascending(#[trigger] groups[i])
            &&& ascending(current)
            &&& forall|j: int| 0 <= j < current.len() ==> #[trigger] current[j] < k
        }),
    decreases k,
{
    if k > 0 {
        lemma_sequential_ascending(costs, budget, (k - 1) as nat);
        let (groups, current, used) = sequential_state(costs, budget, (k - 1) as nat);
        let index = (k - 1) as usize;
        let cost = clamped(costs[k - 1], budget);
        if current.len() > 0 && used + cost > budget {
            let g2 = groups.push(current);
            assert forall|i: int| 0 <= i < g2.len() implies ascending(#[trigger] g2[i]) by {
                if i < groups.len() {
                    assert(g2[i] == groups[i]);
                }
            }
        } else {
            let c2 = current.push(index);
            assert forall|j: int| 0 <= j < c2.len() implies #[trigger] c2[j] < k by {
                if j < current.len() {
                    assert(c2[j] == current[j]);
                }
            }
            assert forall|i: int, j: int| 0 <= i < j < c2.len() implies c2[i] < c2[j] by {
                assert(c2[i] == current[i]);
                if j < current.len() {
                    assert(c2[j] == current[j]);
                } else {
                    assert(c2[j] == index);
                    assert(current[i] < k - 1);
                }
            }
        }
    }
}

proof fn lemma_interleaved_ascending(costs: Seq<usize>, budget: int, g: nat, k: nat)
    requires
        costs.len() <= usize::MAX,
        k <= costs.len(),
    ensures
        interleaved_state(costs, budget, g, k) matches Some((buckets, used)) ==> {
            &&& buckets.len() == g
            &&& used.len() == g
            &&& forall|b: int| 0 <= b < g ==> ascending(#[trigger] buckets[b])
            &&& forall|b: int, j: int|
                0 <= b < g && 0 <= j < buckets[b].len() ==> #[trigger] buckets[b][j] < k
        },
    decreases k,
{
    if k > 0 {
        lemma_interleaved_ascending(costs, budget, g, (k - 1) as nat);
        match interleaved_state(costs, budget, g, (k - 1) as nat) {
            None => {},
            Some((buckets, used)) => {
                let cost = clamped(costs[k - 1], budget);
                match first_fit(used, k - 1, cost, budget, g as int, 0) {
                    None => {},
                    Some(b) => {
                        lemma_first_fit(used, k - 1, cost, budget, g as int, 0);
                        let nb = buckets.update(b, buckets[b].push((k - 1) as usize));
                        assert forall|c: int| 0 <= c < g implies ascending(#[trigger] nb[c]) by {
                            if c == b {
                                let s2 = buckets[b].push((k - 1) as usize);
                                assert forall|i: int, j: int| 0 <= i < j < s2.len() implies s2[i]
                                    < s2[j] by {
                                    assert(s2[i] == buckets[b][i]);
                                    if j < buckets[b].len() {
                                        assert(s2[j] == buckets[b][j]);
                                    } else {
                                        assert(s2[j] == (k - 1) as usize);
                                        assert(buckets[b][i] < k - 1);
                                    }
                                }
                            }
                        }
                        assert forall|c: int, j: int|
                            0 <= c < g && 0 <= j < nb[c].len() implies #[trigger] nb[c][j] < k by {
                            if c == b && j < buckets[b].len() {
                                assert(nb[c][j] == buckets[b][j]);
                            }
                        }
                    },
                }
            },
        }
    }
}

proof fn lemma_nonempty_ascending(gs: Seq<Seq<usize>>)
    requires
        forall|i: int| 0 <= i < gs.len() ==> ascending(#[trigger] gs[i]),
    ensures
        forall|i: int|
            0 <= i < nonempty_groups(gs).len() ==> ascending(#[trigger] nonempty_groups(gs)[i]),
    decreases gs.len(),
{
    if gs.len() > 0 {
        assert forall|i: int| 0 <= i < gs.drop_last().len() implies ascending(
            #[trigger] gs.drop_last()[i],
        ) by {
            assert(gs.drop_last()[i] == gs[i]);
        }
        lemma_nonempty_ascending(gs.drop_last());
        let prev = nonempty_groups(gs.drop_last());
        if gs.last().len() > 0 {
            assert forall|i: int| 0 <= i < prev.push(gs.last()).len() implies ascending(
                #[trigger] prev.push(gs.last())[i],
            ) by {
                if i < prev.len() {
                    assert(prev.push(gs.last())[i] == prev[i]);
                }
            }
        }
    }
}

proof fn lemma_group_cost_range(costs: Seq<usize>, budget: int, k: nat)
    requires
        costs.len() <= usize::MAX,
        k <= costs.len(),
        forall|j: int| 0 <= j < costs.len() ==> #[trigger] costs[j] >= 1,
    ensures
        group_cost(index_range(k), costs, budget) <= total_cost(costs.take(k as int)),
    decreases k,
{
    if k > 0 {
        lemma_group_cost_range(costs, budget, (k - 1) as nat);
        assert(index_range(k).drop_last() =~= index_range((k - 1) as nat));
        assert(costs.take(k as int).drop_last() =~= costs.take(k - 1));
        assert(costs[k - 1] >= 1);
        assert(index_range(k).last() == (k - 1) as usize);
        assert(costs.take(k as int).last() == costs[k - 1]);
        assert(clamped(costs[k - 1], budget) <= costs[k - 1]);
    }
}

/// Grouping laws: every option index appears in exactly one group, no group
/// is empty, a plan with several groups keeps every group inside the budget,
/// and options whose total cost fits stay one group in order.
pub proof fn lemma_choice_plan(costs: Seq<usize>, head_max_len: usize)
    requires
        costs.len() <= usize::MAX,
    ensures
        is_partition(choice_plan(costs, head_max_len), costs.len()),
        forall|i: int|
            0 <= i < choice_plan(costs, head_max_len).len() ==> #[trigger] choice_plan(
                costs,
                head_max_len,
            )[i].len() > 0,
        choice_plan(costs, head_max_len).len() > 1 ==> forall|i: int|
            0 <= i < choice_plan(costs, head_max_len).len() ==> #[trigger] group_cost(
                choice_plan(costs, head_max_len)[i],
                costs,
                group_budget(head_max_len),
            ) <= group_budget(head_max_len),
        costs.len() > 0 && total_cost(costs) <= group_budget(head_max_len) ==> choice_plan(
            costs,
            head_max_len,
        ) == seq![index_range(costs.len())],
        costs.len() == 0 ==> choice_plan(costs, head_max_len).len() == 0,
        forall|i: int|
            0 <= i < choice_plan(costs, head_max_len).len() ==> ascending(
                #[trigger] choice_plan(costs, head_max_len)[i],
            ),
        choice_plan(costs, head_max_len).len() == 1 && (forall|j: int|
            0 <= j < costs.len() ==> #[trigger] costs[j] >= 1) ==> group_cost(
            choice_plan(costs, head_max_len)[0],
            costs,
            group_budget(head_max_len),
        ) <= group_budget(head_max_len),
{
    lemma_sequential_plan(costs, head_max_len);
    let budget = group_budget(head_max_len);
    let sequential = sequential_plan(costs, head_max_len);
    if sequential.len() > 1 {
        lemma_interleaved_plan(costs, head_max_len, sequential.len());
    }
    // Groups list their options in increasing order.
    if costs.len() > 0 {
        if total_cost(costs) <= budget {
            assert(ascending(index_range(costs.len())));
        } else {
            lemma_sequential_ascending(costs, budget, costs.len());
            lemma_sequential_state(costs, budget, costs.len());
            let (groups, current, _) = sequential_state(costs, budget, costs.len());
            assert forall|i: int| 0 <= i < sequential.len() implies ascending(
                #[trigger] sequential[i],
            ) by {
                if i < groups.len() {
                    assert(sequential[i] == groups[i]);
                }
            }
        }
        if sequential.len() > 1 {
            let g = sequential.len();
            lemma_interleaved_ascending(costs, budget, g, costs.len());
            match interleaved_state(costs, budget, g, costs.len()) {
                None => {},
                Some((buckets, _)) => {
                    lemma_nonempty_ascending(buckets);
                },
            }
        }
    }
    // A lone group stays inside the budget when no option is free.
    if choice_plan(costs, head_max_len).len() == 1 && (forall|j: int|
        0 <= j < costs.len() ==> #[trigger] costs[j] >= 1) {
        if total_cost(costs) <= budget {
            lemma_group_cost_range(costs, budget, costs.len());
            assert(costs.take(costs.len() as int) =~= costs);
        } else {
            lemma_sequential_state(costs, budget, costs.len());
        }
    }
}

/// Options whose costs sum to at most the head budget less the 16 tokens kept
/// for the instructions stay one group, holding every option index in order.
pub proof fn lemma_fitting_choice_is_one_group(costs: Seq<usize>, head_max_len: usize)
    requires
        0 < costs.len() <= usize::MAX,
        total_cost(costs) + 16 <= head_max_len,
    ensures
        choice_plan(costs, head_max_len).len() == 1,
        choice_plan(costs, head_max_len)[0].len() == costs.len(),
        forall|i: int|
            0 <= i < costs.len() ==> #[trigger] choice_plan(costs, head_max_len)[0][i] == i,
{
    assert(HEAD_INSTRUCTION_RESERVE == 16);
    assert(total_cost(costs) <= group_budget(head_max_len));
    let plan = choice_plan(costs, head_max_len);
    assert(plan[0] == index_range(costs.len()));
    assert forall|i: int| 0 <= i < costs.len() implies #[trigger] plan[0][i] == i by {
        assert(index_range(costs.len())[i] == i as usize);
    }
}

// ---------------------------------------------------------------------------
// Executable planners
// ---------------------------------------------------------------------------

fn budget_of(head_max_len: usize) -> (r: usize)
    ensures
        r == group_budget(head_max_len),
        r >= 1,
{
    let b = head_max_len.saturating_sub(HEAD_INSTRUCTION_RESERVE);
    if b >= 1 {
        b
    } else {
        1
    }
}

fn clamp_cost(cost: usize, budget: usize) -> (r: usize)
    requires
        budget >= 1,
    ensures
        r == clamped(cost, budget as int),
        1 <= r <= budget,
{
    let c = if cost >= 1 {
        cost
    } else {
        1
    };
    if c <= budget {
        c
    } else {
        budget
    }
}

fn range_vec(n: usize) -> (r: Vec<usize>)
    ensures
        r@ == index_range(n as nat),
{
    let mut out: Vec<usize> = Vec::new();
    let mut i: usize = 0;
    while i < n
        invariant
            i <= n,
            out@ == index_range(i as nat),
        decreases n - i,
    {
        proof {
            assert(index_range((i + 1) as nat) =~= index_range(i as nat).push(i));
        }
        out.push(i);
        i = i + 1;
    }
    out
}

/// Contiguous first-fit packing.
fn plan_choice_groups_sequential(costs: &[usize], head_max_len: usize) -> (r: Vec<Vec<usize>>)
    ensures
        group_views(r@) == sequential_plan(costs@, head_max_len),
{
    let budget = budget_of(head_max_len);
    if costs.len() == 0 {
        proof {
            assert(group_views(Seq::<Vec<usize>>::empty()) =~= Seq::<Seq<usize>>::empty());
        }
        return Vec::new();
    }
    // Does the raw total fit? Stop summing once it no longer can.
    let mut total: usize = 0;
    let mut fits = true;
    let mut i: usize = 0;
    while i < costs.len() && fits
        invariant
            i <= costs@.len(),
            fits ==> total == total_cost(costs@.take(i as int)) && total <= budget,
            !fits ==> total_cost(costs@) > budget,
        decreases costs@.len() - i,
    {
        proof {
            assert(costs@.take(i + 1).drop_last() =~= costs@.take(i as int));
        }
        if costs[i] > budget - total {
            proof {
                lemma_total_prefix(costs@, i + 1);
            }
            fits = false;
        } else {
            total = total + costs[i];
        }
        i = i + 1;
    }
    if fits {
        proof {
            assert(costs@.take(costs@.len() as int) =~= costs@);
        }
        let all = range_vec(costs.len());
        let mut out: Vec<Vec<usize>> = Vec::new();
        out.push(all);
        proof {
            assert(group_views(out@) =~= seq![index_range(costs@.len())]);
        }
        return out;
    }
    let mut groups: Vec<Vec<usize>> = Vec::new();
    let mut current: Vec<usize> = Vec::new();
    let mut used: usize = 0;
    let mut k: usize = 0;
    proof {
        lemma_sequential_state(costs@, budget as int, 0);
        assert(group_views(groups@) =~= Seq::<Seq<usize>>::empty());
    }
    while k < costs.len()
        invariant
            k <= costs@.len(),
            budget >= 1,
            budget == group_budget(head_max_len),
            (group_views(groups@), current@, used as int) == sequential_state(
                costs@,
                budget as int,
                k as nat,
            ),
        decreases costs@.len() - k,
    {
        proof {
            lemma_sequential_state(costs@, budget as int, k as nat);
        }
        let cost = clamp_cost(costs[k], budget);
        let full = current.len() > 0 && cost > budget - used;
        if full {
            let done = current;
            proof {
                assert(group_views(groups@.push(done)) =~= group_views(groups@).push(done@));
            }
            groups.push(done);
            current = Vec::new();
            current.push(k);
            used = cost;
            proof {
                assert(current@ =~= seq![k]);
            }
        } else {
            current.push(k);
            used = used + cost;
        }
        k = k + 1;
    }
    if current.len() > 0 {
        let done = current;
        proof {
            assert(group_views(groups@.push(done)) =~= group_views(groups@).push(done@));
        }
        groups.push(done);
    }
    groups
}

fn first_fit_exec(used: &Vec<usize>, index: usize, cost: usize, budget: usize) -> (r: Option<usize>)
    requires
        used@.len() > 0,
        forall|b: int| 0 <= b < used@.len() ==> #[trigger] used@[b] <= budget,
    ensures
        match first_fit(
            used@.map_values(|u: usize| u as int),
            index as int,
            cost as int,
            budget as int,
            used@.len() as int,
            0,
        ) {
            Some(b) => r == Some(b as usize),
            None => r is None,
        },
{
    let g = used.len();
    let ghost us = used@.map_values(|u: usize| u as int);
    let mut offset: usize = 0;
    while offset < g
        invariant
            g == used@.len(),
            g > 0,
            offset <= g,
            us == used@.map_values(|u: usize| u as int),
            forall|b: int| 0 <= b < used@.len() ==> #[trigger] used@[b] <= budget,
            first_fit(us, index as int, cost as int, budget as int, g as int, 0) == first_fit(
                us,
                index as int,
                cost as int,
                budget as int,
                g as int,
                offset as int,
            ),
        decreases g - offset,
    {
        let r = index % g;
        let bucket = if offset < g - r {
            r + offset
        } else {
            offset - (g - r)
        };
        proof {
            vstd::arithmetic::div_mod::lemma_add_mod_noop_right(offset as int, index as int, g as int);
            assert((index + offset) % (g as int) == (r + offset) % (g as int));
            if offset < g - r {
                vstd::arithmetic::div_mod::lemma_small_mod((r + offset) as nat, g as nat);
            } else {
                vstd::arithmetic::div_mod::lemma_mod_add_multiples_vanish(
                    (r + offset - g) as int,
                    g as int,
                );
                vstd::arithmetic::div_mod::lemma_small_mod((r + offset - g) as nat, g as nat);
            }
            assert(bucket as int == (index + offset) % (g as int));
            assert(us[bucket as int] == used@[bucket as int] as int);
        }
        if cost <= budget - used[bucket] {
            return Some(bucket);
        }
        offset = offset + 1;
    }
    None
}

/// Round-robin first-fit into `group_count` buckets; `None` when an option fits nowhere.
fn plan_choice_groups_interleaved(costs: &[usize], head_max_len: usize, group_count: usize) -> (r:
    Option<Vec<Vec<usize>>>)
    ensures
        match r {
            Some(groups) => interleaved_plan(costs@, head_max_len, group_count as nat) == Some(
                group_views(groups@),
            ),
            None => interleaved_plan(costs@, head_max_len, group_count as nat) is None,
        },
{
    let budget = budget_of(head_max_len);
    if group_count == 0 || costs.len() == 0 {
        return None;
    }
    let mut buckets: Vec<Vec<usize>> = Vec::new();
    let mut used: Vec<usize> = Vec::new();
    let mut z: usize = 0;
    while z < group_count
        invariant
            z <= group_count,
            buckets@.len() == z,
            used@.len() == z,
            forall|b: int| 0 <= b < z ==> #[trigger] buckets@[b]@ == Seq::<usize>::empty(),
            forall|b: int| 0 <= b < z ==> #[trigger] used@[b] == 0,
        decreases group_count - z,
    {
        buckets.push(Vec::new());
        used.push(0);
        z = z + 1;
    }
    proof {
        assert(group_views(buckets@) =~= Seq::new(
            group_count as nat,
            |i: int| Seq::<usize>::empty(),
        ));
        assert(used@.map_values(|u: usize| u as int) =~= Seq::new(
            group_count as nat,
            |i: int| 0int,
        ));
    }
    let mut index: usize = 0;
    while index < costs.len()
        invariant
            index <= costs@.len(),
            budget >= 1,
            budget == group_budget(head_max_len),
            buckets@.len() == group_count,
            used@.len() == group_count,
            group_count > 0,
            interleaved_state(costs@, budget as int, group_count as nat, index as nat) == Some(
                (group_views(buckets@), used@.map_values(|u: usize| u as int)),
            ),
        decreases costs@.len() - index,
    {
        proof {
            lemma_interleaved_state(costs@, budget as int, group_count as nat, index as nat);
            assert forall|b: int| 0 <= b < used@.len() implies #[trigger] used@[b] <= budget by {
                assert(used@.map_values(|u: usize| u as int)[b] == used@[b] as int);
            }
        }
        let cost = clamp_cost(costs[index], budget);
        match first_fit_exec(&used, index, cost, budget) {
            None => {
                proof {
                    lemma_interleaved_stays_none(
                        costs@,
                        budget as int,
                        group_count as nat,
                        (index + 1) as nat,
                        costs@.len(),
                    );
                }
                return None;
            },
            Some(bucket) => {
                proof {
                    lemma_first_fit(
                        used@.map_values(|u: usize| u as int),
                        index as int,
                        cost as int,
                        budget as int,
                        group_count as int,
                        0,
                    );
                }
                let ghost us = used@.map_values(|u: usize| u as int);
                let ghost bs = buckets@;
                let mut group: Vec<usize> = Vec::new();
                let mut j: usize = 0;
                while j < buckets[bucket].len()
                    invariant
                        bucket < buckets@.len(),
                        buckets@ == bs,
                        j <= buckets@[bucket as int]@.len(),
                        group@ == buckets@[bucket as int]@.take(j as int),
                    decreases buckets@[bucket as int]@.len() - j,
                {
                    proof {
                        assert(buckets@[bucket as int]@.take(j + 1) =~= buckets@[bucket as int]@.take(j as int).push(buckets@[bucket as int]@[j as int]));
                    }
                    group.push(buckets[bucket][j]);
                    j = j + 1;
                }
                proof {
                    assert(group@ =~= bs[bucket as int]@);
                }
                let ghost before = group@;
                group.push(index);
                buckets.set(bucket, group);
                let u = used[bucket];
                used.set(bucket, u + cost);
                proof {
                    assert(group_views(buckets@) =~= group_views(bs).update(
                        bucket as int,
                        before.push(index),
                    ));
                    assert(used@.map_values(|u: usize| u as int) =~= us.update(
                        bucket as int,
                        us[bucket as int] + cost,
                    ));
                }
            },
        }
        index = index + 1;
    }
    // Drop buckets that stayed empty.
    let ghost all = group_views(buckets@);
    proof {
        assert(costs@.take(costs@.len() as int) =~= costs@);
        assert(all.take(0) =~= Seq::<Seq<usize>>::empty());
        assert(all.skip(0) =~= all);
    }
    let mut out: Vec<Vec<usize>> = Vec::new();
    let mut consumed: usize = 0;
    while buckets.len() > 0
        invariant
            all.len() == group_count,
            consumed + buckets@.len() == group_count,
            group_views(buckets@) == all.skip(consumed as int),
            group_views(out@) == nonempty_groups(all.take(consumed as int)),
        decreases buckets@.len(),
    {
        let ghost before = buckets@;
        let group = buckets.remove(0);
        proof {
            assert(group_views(before)[0] == before[0]@);
            assert(all.skip(consumed as int)[0] == all[consumed as int]);
            assert(group@ == all[consumed as int]);
            assert forall|i: int| 0 <= i < group_views(buckets@).len() implies group_views(
                buckets@,
            )[i] == all.skip(consumed + 1)[i] by {
                assert(buckets@[i] == before[i + 1]);
                assert(group_views(before)[i + 1] == before[i + 1]@);
                assert(all.skip(consumed as int)[i + 1] == all[consumed + 1 + i]);
            }
            assert(all.take(consumed + 1).drop_last() =~= all.take(consumed as int));
            assert(all.take(consumed + 1).last() == all[consumed as int]);
            assert(group_views(buckets@) =~= all.skip(consumed + 1));
        }
        if group.len() > 0 {
            let ghost prev = out@;
            out.push(group);
            proof {
                assert(group_views(out@) =~= group_views(prev).push(group@));
            }
        }
        consumed = consumed + 1;
    }
    proof {
        assert(all.take(group_count as int) =~= all);
    }
    Some(out)
}

proof fn lemma_interleaved_stays_none(costs: Seq<usize>, budget: int, g: nat, k: nat, k2: nat)
    requires
        k <= k2,
        interleaved_state(costs, budget, g, k) is None,
    ensures
        interleaved_state(costs, budget, g, k2) is None,
    decreases k2,
{
    if k < k2 {
        lemma_interleaved_stays_none(costs, budget, g, k, (k2 - 1) as nat);
    }
}

/// Partition option indices so each group fits in the head budget.
///
/// One group means the caller should pack the question once. More groups mean
/// the full option list would be shortened. Every index appears once. When
/// several groups are required, indices are interleaved rather than sliced
/// contiguously, so nearby criteria are less often eliminated against each
/// other in round one.
pub fn plan_choice_groups(costs: &[usize], head_max_len: usize) -> (r: Vec<Vec<usize>>)
    ensures
        group_views(r@) == choice_plan(costs@, head_max_len),
        is_partition(group_views(r@), costs@.len()),
{
    let n = costs.len();
    proof {
        lemma_choice_plan(costs@, head_max_len);
    }
    let sequential = plan_choice_groups_sequential(costs, head_max_len);
    if sequential.len() <= 1 {
        return sequential;
    }
    match plan_choice_groups_interleaved(costs, head_max_len, sequential.len()) {
        Some(groups) => {
            if groups.len() == sequential.len() {
                groups
            } else {
                sequential
            }
        },
        None => sequential,
    }
}

/// Upper bound on continued options for a group of `group_len` options.
pub fn survivor_count(group_len: usize) -> (r: usize)
    ensures
        r == if group_len >= 5 {
            3usize
        } else if group_len >= 3 {
            2usize
        } else {
            1usize
        },
{
    if group_len >= 5 {
        3
    } else if group_len >= 3 {
        2
    } else {
        1
    }
}

// ---------------------------------------------------------------------------
// Refining the leading options
// ---------------------------------------------------------------------------

/// Entry `j` of `top` names no option of `n`, or one an earlier entry named.
pub open spec fn refine_fault_at(n: nat, top: Seq<usize>, j: int) -> bool {
    &&& 0 <= j < top.len()
    &&& (top[j] >= n || exists|k: int| 0 <= k < j && top[k] == top[j])
}

/// No entry of `top` before `j` is at fault.
pub open spec fn refine_clean_before(n: nat, top: Seq<usize>, j: int) -> bool {
    forall|i: int| 0 <= i < j ==> !refine_fault_at(n, top, i)
}

/// The first entry of `top` that is missing from the `n` composed options or
/// repeats an earlier entry, if any.
pub fn refine_index_fault(n: usize, top: &[usize]) -> (r: Option<usize>)
    ensures
        match r {
            Some(index) => exists|j: int|
                refine_fault_at(n as nat, top@, j) && refine_clean_before(n as nat, top@, j)
                    && top@[j] == index,
            None => refine_clean_before(n as nat, top@, top@.len() as int),
        },
{
    let mut seen: Vec<bool> = Vec::new();
    let mut v: usize = 0;
    while v < n
        invariant
            v <= n,
            seen@.len() == v,
            forall|x: int| 0 <= x < v ==> !seen@[x],
        decreases n - v,
    {
        seen.push(false);
        v = v + 1;
    }
    let mut j: usize = 0;
    while j < top.len()
        invariant
            j <= top.len(),
            seen@.len() == n,
            refine_clean_before(n as nat, top@, j as int),
            forall|x: int|
                0 <= x < n ==> (seen@[x] <==> exists|k: int| 0 <= k < j && top@[k] == x),
        decreases top.len() - j,
    {
        let index = top[j];
        if index >= n || seen[index] {
            assert(refine_fault_at(n as nat, top@, j as int));
            return Some(index);
        }
        assert(!refine_fault_at(n as nat, top@, j as int));
        seen.set(index, true);
        assert forall|x: int| 0 <= x < n implies (seen@[x] <==> exists|k: int|
            0 <= k < j + 1 && top@[k] == x) by {
            if x == index {
                assert(top@[j as int] == x);
            }
        }
        j = j + 1;
    }
    None
}

/// Message of a refine entry that is missing or repeated.
pub open spec fn refine_index_message(index: usize) -> Seq<char> {
    "top-choice refine index "@ + decimal(index as nat) + " is missing or repeated"@
}

/// The error for a refine entry that is missing or repeated.
pub fn refine_index_error(index: usize) -> (e: Error)
    ensures
        e matches Error::InvalidQuestion { id, reason } && id@ == Seq::<char>::empty()
            && reason@ == refine_index_message(index),
{
    let mut text: Vec<char> = Vec::new();
    append_str(&mut text, "top-choice refine index ");
    push_decimal(&mut text, index);
    append_str(&mut text, " is missing or repeated");
    let empty: Vec<char> = Vec::new();
    Error::InvalidQuestion { id: string_of(empty.as_slice()), reason: string_of(text.as_slice()) }
}

// ---------------------------------------------------------------------------
// Shape of a grouped tournament
// ---------------------------------------------------------------------------

/// Entry `j` of `s` is at least `n`, was already marked in `prior`, or repeats
/// an earlier entry.
pub open spec fn entry_fault_at(n: nat, prior: Seq<bool>, s: Seq<usize>, j: int) -> bool {
    &&& 0 <= j < s.len()
    &&& (s[j] >= n || prior[s[j] as int] || exists|k: int| 0 <= k < j && s[k] == s[j])
}

/// No entry of `s` before `j` is at fault.
pub open spec fn entries_clean(n: nat, prior: Seq<bool>, s: Seq<usize>, j: int) -> bool {
    forall|i: int| 0 <= i < j ==> !entry_fault_at(n, prior, s, i)
}

/// Some entry of `s` is at fault.
pub open spec fn has_entry_fault(n: nat, prior: Seq<bool>, s: Seq<usize>) -> bool {
    exists|j: int| entry_fault_at(n, prior, s, j) && entries_clean(n, prior, s, j)
}

/// The first entry of `s` at fault.
pub open spec fn first_entry_fault(n: nat, prior: Seq<bool>, s: Seq<usize>) -> int {
    choose|j: int| entry_fault_at(n, prior, s, j) && entries_clean(n, prior, s, j)
}

proof fn lemma_first_entry_fault(n: nat, prior: Seq<bool>, s: Seq<usize>, j: int)
    requires
        entry_fault_at(n, prior, s, j),
        entries_clean(n, prior, s, j),
    ensures
        has_entry_fault(n, prior, s),
        first_entry_fault(n, prior, s) == j,
{
    let c = first_entry_fault(n, prior, s);
    assert(entry_fault_at(n, prior, s, c) && entries_clean(n, prior, s, c));
    if c < j {
        assert(!entry_fault_at(n, prior, s, c));
    } else if j < c {
        assert(!entry_fault_at(n, prior, s, j));
    }
}

/// Option `x` is listed by one of the first `k` groups.
pub open spec fn covered_by(gs: Seq<Seq<usize>>, k: int, x: int) -> bool {
    exists|g: int, l: int| 0 <= g < k && 0 <= l < gs[g].len() && gs[g][l] == x
}

/// Which of `n` options the first `k` groups list.
pub open spec fn coverage(gs: Seq<Seq<usize>>, k: int, n: nat) -> Seq<bool> {
    Seq::new(n, |x: int| covered_by(gs, k, x))
}

/// Message of a continued local index that is missing or repeated.
pub open spec fn survivor_message(local: usize) -> Seq<char> {
    "grouped choice survivor "@ + decimal(local as nat) + " is missing or repeated"@
}

/// Message of a group option index that is missing or repeated.
pub open spec fn group_index_message(index: usize) -> Seq<char> {
    "grouped choice index "@ + decimal(index as nat) + " is missing or repeated"@
}

/// What is wrong with one group, given the options earlier groups listed:
/// its probabilities do not match its options, a continued local index is
/// out of range or repeated, or an option index is out of range or listed twice.
pub open spec fn group_fault(
    n: nat,
    prior: Seq<bool>,
    group: Seq<usize>,
    chunk_len: usize,
    chunk_finite: bool,
    locals: Seq<usize>,
) -> Option<Seq<char>> {
    let fresh = Seq::new(group.len(), |x: int| false);
    if group.len() == 0 || chunk_len != group.len() || locals.len() == 0 || !chunk_finite {
        Some("grouped choice chunk does not match its options"@)
    } else if has_entry_fault(group.len(), fresh, locals) {
        Some(survivor_message(locals[first_entry_fault(group.len(), fresh, locals)]))
    } else if has_entry_fault(n, prior, group) {
        Some(group_index_message(group[first_entry_fault(n, prior, group)]))
    } else {
        None
    }
}

/// Group `k` is at fault.
pub open spec fn group_faulty(
    n: nat,
    gs: Seq<Seq<usize>>,
    lens: Seq<usize>,
    finite: Seq<bool>,
    locs: Seq<Seq<usize>>,
    k: int,
) -> bool {
    &&& 0 <= k < gs.len()
    &&& group_fault(n, coverage(gs, k, n), gs[k], lens[k], finite[k], locs[k]) is Some
}

/// Total length of a sequence of sequences.
pub open spec fn lens_sum(s: Seq<Seq<usize>>) -> int
    decreases s.len(),
{
    if s.len() == 0 {
        0
    } else {
        lens_sum(s.drop_last()) + s.last().len()
    }
}

proof fn lemma_lens_sum_prefix(s: Seq<Seq<usize>>, i: int)
    requires
        0 <= i <= s.len(),
    ensures
        lens_sum(s.take(i)) <= lens_sum(s),
    decreases s.len(),
{
    if i < s.len() {
        assert(s.drop_last().take(i) =~= s.take(i));
        lemma_lens_sum_prefix(s.drop_last(), i);
    } else {
        assert(s.take(i) =~= s);
    }
}

/// What is wrong with the shape of a grouped tournament over `n` options:
/// `groups` (option indexes per group), the lengths of the per-group
/// probabilities and whether each is finite, the continued local indexes of
/// each group, and the length and finiteness of the next comparison's
/// probabilities. The checks run in this order and the first failure is
/// reported; `None` when the shape is sound.
pub open spec fn grouped_fault(
    n: nat,
    gs: Seq<Seq<usize>>,
    lens: Seq<usize>,
    finite: Seq<bool>,
    locs: Seq<Seq<usize>>,
    next_len: nat,
    next_finite: bool,
) -> Option<Seq<char>> {
    if gs.len() != lens.len() || gs.len() != locs.len() {
        Some("grouped choice probabilities do not cover every group"@)
    } else if lens_sum(locs) != next_len || !next_finite {
        Some("grouped choice survivors do not match the next comparison"@)
    } else if exists|k: int| group_faulty(n, gs, lens, finite, locs, k) {
        let k = choose|k: int|
            group_faulty(n, gs, lens, finite, locs, k) && forall|j: int|
                0 <= j < k ==> !group_faulty(n, gs, lens, finite, locs, j);
        group_fault(n, coverage(gs, k, n), gs[k], lens[k], finite[k], locs[k])
    } else if exists|x: int| 0 <= x < n && !covered_by(gs, gs.len() as int, x) {
        Some("grouped choice did not assign every option"@)
    } else {
        None
    }
}

/// Marks the entries of `s` in `seen`, stopping at the first entry that is
/// out of range, already marked, or repeated.
fn mark_entries(n: usize, seen: &mut Vec<bool>, s: &[usize]) -> (r: Option<usize>)
    requires
        old(seen)@.len() == n,
    ensures
        final(seen)@.len() == n,
        match r {
            Some(e) => exists|j: int|
                entry_fault_at(n as nat, old(seen)@, s@, j) && entries_clean(n as nat, old(seen)@, s@, j)
                    && s@[j] == e,
            None => entries_clean(n as nat, old(seen)@, s@, s@.len() as int) && forall|x: int|
                0 <= x < n ==> (final(seen)@[x] <==> (old(seen)@[x] || exists|k: int|
                    0 <= k < s@.len() && s@[k] == x)),
        },
{
    let ghost prior = seen@;
    let mut j: usize = 0;
    while j < s.len()
        invariant
            j <= s.len(),
            seen@.len() == n,
            prior.len() == n,
            prior == old(seen)@,
            entries_clean(n as nat, prior, s@, j as int),
            forall|x: int|
                #![trigger seen@[x]]
                0 <= x < n ==> (seen@[x] <==> (prior[x] || exists|k: int| 0 <= k < j && s@[k] == x)),
        decreases s.len() - j,
    {
        let index = s[j];
        if index >= n || seen[index] {
            assert(entry_fault_at(n as nat, prior, s@, j as int));
            return Some(index);
        }
        assert(!seen@[index as int]);
        assert(!prior[index as int] && !exists|k: int| 0 <= k < j && s@[k] == index);
        assert(!entry_fault_at(n as nat, prior, s@, j as int));
        seen.set(index, true);
        assert forall|x: int| #![trigger seen@[x]] 0 <= x < n implies (seen@[x] <==> (prior[x] || exists|k: int|
            0 <= k < j + 1 && s@[k] == x)) by {
            if x == index {
                assert(s@[j as int] == x);
            }
        }
        j = j + 1;
    }
    None
}

fn grouped_error(reason: &Vec<char>) -> (e: Error)
    ensures
        e matches Error::InvalidQuestion { id, reason: m } && id@ == Seq::<char>::empty() && m@
            == reason@,
{
    let empty: Vec<char> = Vec::new();
    Error::InvalidQuestion { id: string_of(empty.as_slice()), reason: string_of(reason.as_slice()) }
}

fn grouped_message(text: &str) -> (e: Error)
    ensures
        e matches Error::InvalidQuestion { id, reason } && id@ == Seq::<char>::empty() && reason@
            == text@,
{
    let mut m: Vec<char> = Vec::new();
    append_str(&mut m, text);
    grouped_error(&m)
}

fn numbered_message(head: &str, value: usize, tail: &str) -> (e: Error)
    ensures
        e matches Error::InvalidQuestion { id, reason } && id@ == Seq::<char>::empty() && reason@
            == head@ + decimal(value as nat) + tail@,
{
    let mut m: Vec<char> = Vec::new();
    append_str(&mut m, head);
    push_decimal(&mut m, value);
    append_str(&mut m, tail);
    grouped_error(&m)
}

/// One group's check (see [`group_fault`]); `seen` holds the options earlier
/// groups listed and gains this group's options when it is sound.
fn check_group(
    n: usize,
    seen: &mut Vec<bool>,
    group: &Vec<usize>,
    chunk_len: usize,
    chunk_finite: bool,
    locals: &Vec<usize>,
) -> (r: Result<(), Error>)
    requires
        old(seen)@.len() == n,
    ensures
        final(seen)@.len() == n,
        match group_fault(n as nat, old(seen)@, group@, chunk_len, chunk_finite, locals@) {
            Some(m) => r matches Err(Error::InvalidQuestion { id, reason }) && id@ == Seq::<
                char,
            >::empty() && reason@ == m,
            None => r is Ok && forall|x: int|
                0 <= x < n ==> (final(seen)@[x] <==> (old(seen)@[x] || exists|k: int|
                    0 <= k < group@.len() && group@[k] == x)),
        },
{
    if group.len() == 0 || chunk_len != group.len() || locals.len() == 0 || !chunk_finite {
        return Err(grouped_message("grouped choice chunk does not match its options"));
    }
    let ghost fresh = Seq::new(group@.len(), |x: int| false);
    let mut continued: Vec<bool> = Vec::new();
    let mut v: usize = 0;
    while v < group.len()
        invariant
            v <= group@.len(),
            continued@.len() == v,
            forall|x: int| 0 <= x < v ==> !continued@[x],
        decreases group@.len() - v,
    {
        continued.push(false);
        v = v + 1;
    }
    assert(continued@ =~= fresh);
    match mark_entries(group.len(), &mut continued, locals.as_slice()) {
        Some(local) => {
            proof {
                let j = choose|j: int|
                    entry_fault_at(group@.len(), fresh, locals@, j) && entries_clean(
                        group@.len(),
                        fresh,
                        locals@,
                        j,
                    ) && locals@[j] == local;
                lemma_first_entry_fault(group@.len(), fresh, locals@, j);
            }
            return Err(numbered_message("grouped choice survivor ", local, " is missing or repeated"));
        },
        None => {},
    }
    assert(!has_entry_fault(group@.len(), fresh, locals@));
    let ghost prior = seen@;
    match mark_entries(n, seen, group.as_slice()) {
        Some(index) => {
            proof {
                let j = choose|j: int|
                    entry_fault_at(n as nat, prior, group@, j) && entries_clean(
                        n as nat,
                        prior,
                        group@,
                        j,
                    ) && group@[j] == index;
                lemma_first_entry_fault(n as nat, prior, group@, j);
            }
            Err(numbered_message("grouped choice index ", index, " is missing or repeated"))
        },
        None => {
            assert(!has_entry_fault(n as nat, prior, group@));
            Ok(())
        },
    }
}

/// The shape check of a grouped tournament (see [`grouped_fault`]): `Ok` when
/// every group matches its probabilities and continued options, and the
/// groups list each of the `option_count` options exactly once.
pub fn grouped_shape_check(
    option_count: usize,
    groups: &[Vec<usize>],
    chunk_lens: &[usize],
    chunks_finite: &[bool],
    survivor_locals: &[Vec<usize>],
    next_len: usize,
    next_finite: bool,
) -> (r: Result<(), Error>)
    requires
        chunks_finite@.len() == chunk_lens@.len(),
    ensures
        match grouped_fault(
            option_count as nat,
            group_views(groups@),
            chunk_lens@,
            chunks_finite@,
            group_views(survivor_locals@),
            next_len as nat,
            next_finite,
        ) {
            Some(m) => r matches Err(Error::InvalidQuestion { id, reason }) && id@ == Seq::<
                char,
            >::empty() && reason@ == m,
            None => r is Ok,
        },
{
    let ghost gs = group_views(groups@);
    let ghost locs = group_views(survivor_locals@);
    let ghost lens = chunk_lens@;
    let ghost fin = chunks_finite@;
    let n = option_count;
    if groups.len() != chunk_lens.len() || groups.len() != survivor_locals.len() {
        return Err(grouped_message("grouped choice probabilities do not cover every group"));
    }
    let mut declared: usize = 0;
    let mut i: usize = 0;
    while i < survivor_locals.len()
        invariant
            i <= survivor_locals@.len(),
            locs == group_views(survivor_locals@),
            gs == group_views(groups@),
            lens == chunk_lens@,
            fin == chunks_finite@,
            gs.len() == lens.len() && gs.len() == locs.len(),
            declared == lens_sum(locs.take(i as int)),
            declared <= next_len,
        decreases survivor_locals@.len() - i,
    {
        assert(locs.take(i as int + 1).drop_last() =~= locs.take(i as int));
        let len = survivor_locals[i].len();
        if len > next_len - declared {
            proof {
                lemma_lens_sum_prefix(locs, i as int + 1);
            }
            return Err(grouped_message("grouped choice survivors do not match the next comparison"));
        }
        declared = declared + len;
        i = i + 1;
    }
    assert(i == locs.len());
    assert(locs.take(locs.len() as int) =~= locs);
    if declared != next_len || !next_finite {
        return Err(grouped_message("grouped choice survivors do not match the next comparison"));
    }
    let mut seen: Vec<bool> = Vec::new();
    let mut v: usize = 0;
    while v < n
        invariant
            v <= n,
            seen@.len() == v,
            forall|x: int| 0 <= x < v ==> !seen@[x],
        decreases n - v,
    {
        seen.push(false);
        v = v + 1;
    }
    let mut k: usize = 0;
    while k < groups.len()
        invariant
            k <= groups@.len(),
            n == option_count,
            gs == group_views(groups@),
            locs == group_views(survivor_locals@),
            lens == chunk_lens@,
            fin == chunks_finite@,
            gs.len() == lens.len() && gs.len() == locs.len() && fin.len() == lens.len(),
            lens_sum(locs) == next_len && next_finite,
            seen@.len() == n,
            forall|x: int| 0 <= x < n ==> (seen@[x] <==> covered_by(gs, k as int, x)),
            forall|j: int| 0 <= j < k ==> !group_faulty(n as nat, gs, lens, fin, locs, j),
        decreases groups@.len() - k,
    {
        assert(seen@ =~= coverage(gs, k as int, n as nat));
        let ghost before = seen@;
        let checked = check_group(n, &mut seen, &groups[k], chunk_lens[k], chunks_finite[k], &survivor_locals[k]);
        match checked {
            Err(_) => {
                assert(group_faulty(n as nat, gs, lens, fin, locs, k as int));
                proof {
                    let c = choose|c: int|
                        group_faulty(n as nat, gs, lens, fin, locs, c) && forall|j: int|
                            0 <= j < c ==> !group_faulty(n as nat, gs, lens, fin, locs, j);
                    assert(group_faulty(n as nat, gs, lens, fin, locs, c));
                    if c < k {
                    } else if k < c {
                        assert(!group_faulty(n as nat, gs, lens, fin, locs, k as int));
                    }
                    assert(c == k);
                }
                return checked;
            },
            Ok(()) => {},
        }
        assert(!group_faulty(n as nat, gs, lens, fin, locs, k as int));
        assert forall|x: int| 0 <= x < n implies (seen@[x] <==> covered_by(gs, k as int + 1, x)) by {
            if seen@[x] {
                if before[x] {
                    let (g, l) = choose|g: int, l: int|
                        0 <= g < k && 0 <= l < gs[g].len() && gs[g][l] == x;
                    assert(0 <= g < k + 1 && 0 <= l < gs[g].len() && gs[g][l] == x);
                } else {
                    let l = choose|l: int| 0 <= l < gs[k as int].len() && gs[k as int][l] == x;
                    assert(0 <= k < k + 1 && 0 <= l < gs[k as int].len() && gs[k as int][l] == x);
                }
            }
            if covered_by(gs, k as int + 1, x) {
                let (g, l) = choose|g: int, l: int|
                    0 <= g < k + 1 && 0 <= l < gs[g].len() && gs[g][l] == x;
                if g < k {
                    assert(covered_by(gs, k as int, x));
                } else {
                    assert(gs[k as int][l] == x);
                }
            }
        }
        k = k + 1;
    }
    assert(!exists|c: int| group_faulty(n as nat, gs, lens, fin, locs, c));
    let mut x: usize = 0;
    while x < n
        invariant
            x <= n,
            seen@.len() == n,
            gs.len() == groups@.len(),
            n == option_count,
            gs == group_views(groups@),
            locs == group_views(survivor_locals@),
            lens == chunk_lens@,
            fin == chunks_finite@,
            gs.len() == lens.len() && gs.len() == locs.len() && fin.len() == lens.len(),
            lens_sum(locs) == next_len && next_finite,
            !exists|c: int| group_faulty(n as nat, gs, lens, fin, locs, c),
            forall|y: int| 0 <= y < n ==> (seen@[y] <==> covered_by(gs, gs.len() as int, y)),
            forall|y: int| 0 <= y < x ==> covered_by(gs, gs.len() as int, y),
        decreases n - x,
    {
        if !seen[x] {
            return Err(grouped_message("grouped choice did not assign every option"));
        }
        x = x + 1;
    }
    Ok(())
}

} // verus!
