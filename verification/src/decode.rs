//! Publishing decoded probabilities.
//!
//! Softmax and rounding work on floating-point values on the host side. What
//! is decided here is exact: how probabilities, once scaled to units of
//! 0.0001, are repaired so they sum to one and keep the chosen label an
//! argmax, and whether a label set can key a probability map.

use vstd::prelude::*;

use crate::schema::{criterion_text, json_text, Json};
use crate::text::str_eq;

verus! {

/// Resolution of published probabilities: units of 0.0001.
pub const UNITS: u32 = 10_000;

/// Integer values of a unit vector.
pub open spec fn ints(v: Seq<u32>) -> Seq<int> {
    v.map_values(|x: u32| x as int)
}

/// Sum of a sequence.
pub open spec fn seq_sum(u: Seq<int>) -> int
    decreases u.len(),
{
    if u.len() == 0 {
        0
    } else {
        seq_sum(u.drop_last()) + u.last()
    }
}

/// Among indexes below `n` other than `w` whose value exceeds `floor`, the
/// one with the largest value, the last one on ties (what `max_by_key`
/// returns); `None` when there is no such index.
pub open spec fn last_max_above(u: Seq<int>, w: int, floor: int, n: int) -> Option<int>
    decreases n,
{
    if n <= 0 {
        None
    } else {
        let b = last_max_above(u, w, floor, n - 1);
        let i = n - 1;
        if i != w && u[i] > floor && (b is None || u[i] >= u[b->0]) {
            Some(i)
        } else {
            b
        }
    }
}

/// The option that gives up a unit when the others hold too many: the
/// largest positive non-winner.
pub open spec fn donor(u: Seq<int>, w: int) -> Option<int> {
    last_max_above(u, w, 0, u.len() as int)
}

/// The option that outranks the winner and gives it a unit: the largest
/// non-winner above the winner.
pub open spec fn rival(u: Seq<int>, w: int) -> Option<int> {
    last_max_above(u, w, u[w], u.len() as int)
}

/// Take `k` units, one at a time, from the current donor.
pub open spec fn shed(u: Seq<int>, w: int, k: nat) -> Seq<int>
    decreases k,
{
    if k == 0 {
        u
    } else {
        match donor(u, w) {
            None => u,
            Some(d) => shed(u.update(d, u[d] - 1), w, (k - 1) as nat),
        }
    }
}

/// Move units from rivals to the winner, one at a time, at most `k` times.
pub open spec fn lift(u: Seq<int>, w: int, k: nat) -> Seq<int>
    decreases k,
{
    if k == 0 {
        u
    } else {
        match rival(u, w) {
            None => u,
            Some(r) => lift(u.update(r, u[r] - 1).update(w, u[w] + 1), w, (k - 1) as nat),
        }
    }
}

/// `x` clamped into `[0, 10000]`.
pub open spec fn clamp_units(x: int) -> int {
    if x < 0 {
        0
    } else if x > UNITS {
        UNITS as int
    } else {
        x
    }
}

/// Published units: the non-winner units (the winner's entry is ignored) are
/// shed until at most `10000 - m` remain, where `m` is 1 for a positive winner
/// probability and 0 otherwise; the winner takes the rest; then rivals that
/// still outrank the winner hand it units until none does.
pub open spec fn published_units(units: Seq<u32>, w: int, winner_positive: bool) -> Seq<int> {
    let u0 = ints(units).update(w, 0);
    let m: int = if winner_positive {
        1
    } else {
        0
    };
    let excess = seq_sum(u0) - (UNITS - m);
    let u1 = shed(
        u0,
        w,
        if excess > 0 {
            excess as nat
        } else {
            0
        },
    );
    let u2 = u1.update(w, clamp_units(UNITS - seq_sum(u1)));
    lift(u2, w, (UNITS + 1) as nat)
}

// ---------------------------------------------------------------------------
// Lemmas
// ---------------------------------------------------------------------------

proof fn lemma_sum_update(u: Seq<int>, i: int, v: int)
    requires
        0 <= i < u.len(),
    ensures
        seq_sum(u.update(i, v)) == seq_sum(u) - u[i] + v,
    decreases u.len(),
{
    let t = u.update(i, v);
    if i < u.len() - 1 {
        lemma_sum_update(u.drop_last(), i, v);
        assert(t.drop_last() =~= u.drop_last().update(i, v));
    } else {
        assert(t.drop_last() =~= u.drop_last());
    }
}

proof fn lemma_elem_le_sum(u: Seq<int>, i: int)
    requires
        0 <= i < u.len(),
        forall|k: int| 0 <= k < u.len() ==> #[trigger] u[k] >= 0,
    ensures
        0 <= u[i] <= seq_sum(u),
        seq_sum(u) >= 0,
    decreases u.len(),
{
    lemma_sum_nonneg(u.drop_last());
    if i < u.len() - 1 {
        lemma_elem_le_sum(u.drop_last(), i);
    }
}

proof fn lemma_sum_nonneg(u: Seq<int>)
    requires
        forall|k: int| 0 <= k < u.len() ==> #[trigger] u[k] >= 0,
    ensures
        seq_sum(u) >= 0,
    decreases u.len(),
{
    if u.len() > 0 {
        lemma_sum_nonneg(u.drop_last());
    }
}

proof fn lemma_sum_only_w(u: Seq<int>, w: int)
    requires
        0 <= w < u.len(),
        forall|k: int| 0 <= k < u.len() && k != w ==> #[trigger] u[k] == 0,
    ensures
        seq_sum(u) == u[w],
    decreases u.len(),
{
    if w < u.len() - 1 {
        lemma_sum_only_w(u.drop_last(), w);
    } else {
        lemma_sum_zero(u.drop_last());
    }
}

proof fn lemma_sum_zero(u: Seq<int>)
    requires
        forall|k: int| 0 <= k < u.len() ==> #[trigger] u[k] == 0,
    ensures
        seq_sum(u) == 0,
    decreases u.len(),
{
    if u.len() > 0 {
        lemma_sum_zero(u.drop_last());
    }
}

proof fn lemma_last_max_above(u: Seq<int>, w: int, floor: int, n: int)
    requires
        n <= u.len(),
    ensures
        match last_max_above(u, w, floor, n) {
            Some(i) => 0 <= i < n && i != w && u[i] > floor && forall|j: int|
                0 <= j < n && j != w && u[j] > floor ==> #[trigger] u[j] <= u[i],
            None => forall|j: int| 0 <= j < n && j != w ==> #[trigger] u[j] <= floor,
        },
    decreases n,
{
    if n > 0 {
        lemma_last_max_above(u, w, floor, n - 1);
    }
}

proof fn lemma_shed(u: Seq<int>, w: int, k: nat)
    requires
        0 <= w < u.len(),
        u[w] == 0,
        forall|i: int| 0 <= i < u.len() ==> #[trigger] u[i] >= 0,
        k <= seq_sum(u),
    ensures
        shed(u, w, k).len() == u.len(),
        seq_sum(shed(u, w, k)) == seq_sum(u) - k,
        shed(u, w, k)[w] == 0,
        forall|i: int| 0 <= i < u.len() ==> 0 <= #[trigger] shed(u, w, k)[i] <= u[i],
    decreases k,
{
    if k > 0 {
        lemma_last_max_above(u, w, 0, u.len() as int);
        match donor(u, w) {
            None => {
                lemma_sum_only_w(u, w);
            },
            Some(d) => {
                let v = u.update(d, u[d] - 1);
                lemma_sum_update(u, d, u[d] - 1);
                lemma_shed(v, w, (k - 1) as nat);
            },
        }
    }
}

proof fn lemma_lift(u: Seq<int>, w: int, k: nat)
    requires
        0 <= w < u.len(),
        forall|i: int| 0 <= i < u.len() ==> #[trigger] u[i] >= 0,
        seq_sum(u) == UNITS,
        k + u[w] >= UNITS + 1,
    ensures
        lift(u, w, k).len() == u.len(),
        seq_sum(lift(u, w, k)) == UNITS,
        lift(u, w, k)[w] >= u[w],
        forall|i: int| 0 <= i < u.len() ==> #[trigger] lift(u, w, k)[i] >= 0,
        forall|i: int| 0 <= i < u.len() && i != w ==> #[trigger] lift(u, w, k)[i] <= u[i],
        forall|i: int| 0 <= i < u.len() ==> #[trigger] lift(u, w, k)[i] <= lift(u, w, k)[w],
    decreases k,
{
    lemma_elem_le_sum(u, w);
    lemma_last_max_above(u, w, u[w], u.len() as int);
    match rival(u, w) {
        None => {},
        Some(r) => {
            lemma_elem_le_sum(u, r);
            let v1 = u.update(r, u[r] - 1);
            let v = v1.update(w, u[w] + 1);
            lemma_sum_update(u, r, u[r] - 1);
            lemma_sum_update(v1, w, u[w] + 1);
            if k == 0 {
                assert(false);
            }
            lemma_lift(v, w, (k - 1) as nat);
        },
    }
}

/// What `publish_units` promises: the units sum to 10000, none is negative,
/// the winner holds at least as many as any other option (at least one when
/// its probability was positive), and no other option gains units.
pub open spec fn publishes(units: Seq<u32>, w: int, winner_positive: bool, out: Seq<int>) -> bool {
    &&& out.len() == units.len()
    &&& seq_sum(out) == UNITS
    &&& forall|i: int| 0 <= i < out.len() ==> 0 <= #[trigger] out[i] <= out[w]
    &&& winner_positive ==> out[w] >= 1
    &&& forall|i: int| 0 <= i < out.len() && i != w ==> #[trigger] out[i] <= units[i]
}

/// Publishing keeps a distribution: the published units sum to 10000 and
/// keep the winner an argmax, whatever the input units.
pub proof fn lemma_published_units(units: Seq<u32>, w: int, winner_positive: bool)
    requires
        0 <= w < units.len(),
    ensures
        publishes(units, w, winner_positive, published_units(units, w, winner_positive)),
{
    let u0 = ints(units).update(w, 0);
    let m: int = if winner_positive {
        1
    } else {
        0
    };
    let excess = seq_sum(u0) - (UNITS - m);
    let k: nat = if excess > 0 {
        excess as nat
    } else {
        0
    };
    assert forall|i: int| 0 <= i < u0.len() implies #[trigger] u0[i] >= 0 by {}
    lemma_sum_nonneg(u0);
    lemma_shed(u0, w, k);
    let u1 = shed(u0, w, k);
    let u2 = u1.update(w, clamp_units(UNITS - seq_sum(u1)));
    lemma_sum_update(u1, w, clamp_units(UNITS - seq_sum(u1)));
    assert(u2[w] == UNITS - seq_sum(u1));
    lemma_lift(u2, w, (UNITS + 1) as nat);
}

// ---------------------------------------------------------------------------
// Executable
// ---------------------------------------------------------------------------

fn last_max_above_exec(u: &Vec<u32>, w: usize, floor: u32) -> (r: Option<usize>)
    ensures
        match last_max_above(ints(u@), w as int, floor as int, u@.len() as int) {
            Some(j) => r matches Some(k) && k == j,
            None => r is None,
        },
{
    let ghost v = ints(u@);
    let mut best: Option<usize> = None;
    let mut i: usize = 0;
    while i < u.len()
        invariant
            i <= u@.len(),
            v == ints(u@),
            match last_max_above(v, w as int, floor as int, i as int) {
                Some(j) => best matches Some(k) && k == j && k < i,
                None => best is None,
            },
        decreases u@.len() - i,
    {
        let take = i != w && u[i] > floor && match best {
            None => true,
            Some(b) => u[i] >= u[b],
        };
        if take {
            best = Some(i);
        }
        i = i + 1;
    }
    best
}

/// Repair probabilities scaled to units of 0.0001 so they publish as a
/// distribution: see [`published_units`]. `units[winner]` is ignored.
#[verifier::rlimit(30)]
pub fn publish_units(units: &[u32], winner: usize, winner_positive: bool) -> (r: Vec<u32>)
    requires
        winner < units@.len(),
    ensures
        ints(r@) == published_units(units@, winner as int, winner_positive),
        publishes(units@, winner as int, winner_positive, ints(r@)),
{
    proof {
        lemma_published_units(units@, winner as int, winner_positive);
    }
    let ghost w = winner as int;
    let mut u: Vec<u32> = Vec::new();
    let mut i: usize = 0;
    while i < units.len()
        invariant
            i <= units@.len(),
            winner < units@.len(),
            u@.len() == i,
            forall|k: int| 0 <= k < i ==> #[trigger] u@[k] == if k == winner {
                0
            } else {
                units@[k]
            },
        decreases units@.len() - i,
    {
        if i == winner {
            u.push(0);
        } else {
            u.push(units[i]);
        }
        i = i + 1;
    }
    let ghost u0 = ints(units@).update(w, 0);
    proof {
        assert(ints(u@) =~= u0);
    }
    // Sum of the non-winner units.
    let mut others: u128 = 0;
    let mut j: usize = 0;
    while j < u.len()
        invariant
            j <= u@.len(),
            others as int == seq_sum(ints(u@).take(j as int)),
            forall|k: int| 0 <= k < u@.len() ==> #[trigger] u@[k] <= u32::MAX,
            others <= j * 0xffff_ffffu128,
            u@.len() <= usize::MAX,
        decreases u@.len() - j,
    {
        proof {
            assert(ints(u@).take(j + 1).drop_last() =~= ints(u@).take(j as int));
        }
        others = others + u[j] as u128;
        j = j + 1;
    }
    proof {
        assert(ints(u@).take(u@.len() as int) =~= ints(u@));
    }
    let m: u128 = if winner_positive {
        1
    } else {
        0
    };
    let limit: u128 = UNITS as u128 - m;
    let ghost excess = seq_sum(u0) - limit;
    let ghost k: nat = if excess > 0 {
        excess as nat
    } else {
        0
    };
    proof {
        assert forall|i: int| 0 <= i < u0.len() implies #[trigger] u0[i] >= 0 by {}
        lemma_shed(u0, w, k);
    }
    // Shed units from the largest non-winners until the winner's minimum fits.
    while others > limit
        invariant
            w == winner as int,
            winner < u@.len(),
            u@.len() == units@.len(),
            u@[w] == 0,
            others as int == seq_sum(ints(u@)),
            limit as int == UNITS - m,
            others > limit ==> k - (seq_sum(u0) - others) == others - limit,
            others <= limit ==> k == seq_sum(u0) - others,
            seq_sum(u0) >= others,
            shed(u0, w, k) == shed(ints(u@), w, (k - (seq_sum(u0) - others)) as nat),
            forall|i: int| 0 <= i < u@.len() ==> #[trigger] u@[i] >= 0,
        ensures
            others <= limit,
            others as int == seq_sum(ints(u@)),
            u@.len() == units@.len(),
            u@[w] == 0,
            shed(u0, w, k) == ints(u@),
        decreases others,
    {
        let ghost cur = ints(u@);
        proof {
            lemma_last_max_above(cur, w, 0, cur.len() as int);
        }
        match last_max_above_exec(&u, winner, 0) {
            None => {
                proof {
                    lemma_sum_only_w(cur, w);
                }
                break;
            },
            Some(d) => {
                let ud = u[d];
                u.set(d, ud - 1);
                proof {
                    assert(ints(u@) =~= cur.update(d as int, cur[d as int] - 1));
                    lemma_sum_update(cur, d as int, cur[d as int] - 1);
                }
                others = others - 1;
            },
        }
    }
    proof {
        assert(shed(ints(u@), w, 0) == ints(u@));
    }
    let ghost u1 = ints(u@);
    // The winner takes what the others leave.
    let rest: u128 = UNITS as u128 - others;
    u.set(winner, rest as u32);
    let ghost u2 = ints(u@);
    proof {
        assert(u2 =~= u1.update(w, clamp_units(UNITS - seq_sum(u1))));
        lemma_sum_update(u1, w, clamp_units(UNITS - seq_sum(u1)));
        lemma_lift(u2, w, (UNITS + 1) as nat);
    }
    // Rivals that outrank the winner hand it units until none does.
    let ghost target = lift(u2, w, (UNITS + 1) as nat);
    loop
        invariant
            w == winner as int,
            winner < u@.len(),
            u@.len() == units@.len(),
            forall|i: int| 0 <= i < u@.len() ==> #[trigger] u@[i] >= 0,
            seq_sum(ints(u@)) == UNITS,
            ints(u@)[w] + (UNITS + 1) - (ints(u@)[w] - u2[w]) >= UNITS + 1,
            ints(u@)[w] >= u2[w],
            target == lift(ints(u@), w, ((UNITS + 1) - (ints(u@)[w] - u2[w])) as nat),
        ensures
            ints(u@) == target,
        decreases UNITS - u@[w],
    {
        let ghost cur = ints(u@);
        proof {
            lemma_last_max_above(cur, w, cur[w], cur.len() as int);
            lemma_elem_le_sum(cur, w);
        }
        match last_max_above_exec(&u, winner, u[winner]) {
            None => {
                proof {
                    let f = ((UNITS + 1) - (cur[w] - u2[w])) as nat;
                    assert(f > 0);
                    assert(lift(cur, w, f) == cur);
                }
                break;
            },
            Some(r) => {
                proof {
                    lemma_elem_le_sum(cur, r as int);
                }
                let ur = u[r];
                let uw = u[winner];
                u.set(r, ur - 1);
                u.set(winner, uw + 1);
                proof {
                    let v1 = cur.update(r as int, cur[r as int] - 1);
                    assert(ints(u@) =~= v1.update(w, cur[w] + 1));
                    lemma_sum_update(cur, r as int, cur[r as int] - 1);
                    lemma_sum_update(v1, w, cur[w] + 1);
                }
            },
        }
    }
    u
}

/// Whether option labels are pairwise distinct, so they can key a map.
pub fn labels_unique(labels: &[String]) -> (r: bool)
    ensures
        r == labels@.map_values(|l: String| l@).no_duplicates(),
{
    let ghost v = labels@.map_values(|l: String| l@);
    let mut i: usize = 0;
    while i < labels.len()
        invariant
            i <= labels@.len(),
            v == labels@.map_values(|l: String| l@),
            forall|a: int, b: int| 0 <= a < b < labels@.len() && a < i ==> v[a] != v[b],
        decreases labels@.len() - i,
    {
        let mut j: usize = i + 1;
        while j < labels.len()
            invariant
                i < labels@.len(),
                i + 1 <= j <= labels@.len(),
                v == labels@.map_values(|l: String| l@),
                forall|a: int, b: int| 0 <= a < b < labels@.len() && a < i ==> v[a] != v[b],
                forall|b: int| i < b < j ==> v[i as int] != v[b],
            decreases labels@.len() - j,
        {
            if crate::text::str_eq(labels[i].as_str(), labels[j].as_str()) {
                proof {
                    assert(v[i as int] == v[j as int]);
                }
                return false;
            }
            j = j + 1;
        }
        i = i + 1;
    }
    true
}

/// Render score legend entry text.
pub fn score_legend_text(value: &Json) -> (r: String)
    ensures
        r@ == json_text(*value),
{
    criterion_text(value)
}

/// Option whose probability a `noul` answer reports: the first label `true`,
/// else the second option (the packer writes `[false, true]`), or the only one.
pub open spec fn noul_index(labels: Seq<Seq<char>>) -> int {
    if exists|j: int| 0 <= j < labels.len() && labels[j] == "true"@ {
        choose|j: int|
            0 <= j < labels.len() && labels[j] == "true"@ && forall|k: int|
                0 <= k < j ==> labels[k] != "true"@
    } else if labels.len() >= 2 {
        1
    } else {
        0
    }
}

/// Index of the option a `noul` answer reports (see [`noul_index`]).
pub fn noul_true_index(labels: &[String]) -> (r: usize)
    ensures
        r == noul_index(labels@.map_values(|l: String| l@)),
{
    let ghost v = labels@.map_values(|l: String| l@);
    let mut i: usize = 0;
    while i < labels.len()
        invariant
            i <= labels@.len(),
            v == labels@.map_values(|l: String| l@),
            forall|k: int| 0 <= k < i ==> v[k] != "true"@,
        decreases labels@.len() - i,
    {
        if str_eq(labels[i].as_str(), "true") {
            proof {
                let j = i as int;
                assert(v[j] == "true"@);
                let c = choose|c: int|
                    0 <= c < v.len() && v[c] == "true"@ && forall|k: int| 0 <= k < c ==> v[k] != "true"@;
                assert(0 <= c < v.len() && v[c] == "true"@ && forall|k: int| 0 <= k < c ==> v[k] != "true"@);
                if c < j {
                    assert(v[c] != "true"@);
                } else if j < c {
                    assert(v[j] != "true"@);
                }
            }
            return i;
        }
        i = i + 1;
    }
    proof {
        assert(!(exists|j: int| 0 <= j < v.len() && v[j] == "true"@));
    }
    if labels.len() >= 2 {
        1
    } else {
        0
    }
}

} // verus!
