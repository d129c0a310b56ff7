//! Token accounting of the decision engines.
//!
//! The lexical scorer itself blends overlap counts into floating-point logits
//! on the host side; what is counted here is exact.

use vstd::prelude::*;

use indexmap::IndexMap;

use crate::index_map::{
    key_index, token_at, token_contains, token_count, token_entries, token_get, token_insert,
    token_map_new, token_views,
};
use crate::error::{Error, Result};
use crate::infer::neural::add_tokens;
use crate::schema::{question_problem, Question};
use crate::sequence::{pair_views, render_options, rendered_options};
use crate::text::{
    ascii_lowercase, ascii_lowercase_chars, chars_of, is_alphanumeric, is_white_space,
    is_whitespace, string_of, unicode_alphanumeric,
};

verus! {

/// Number of words of a text: maximal runs of characters that are not white
/// space (what `split_whitespace` yields).
pub open spec fn word_count(s: Seq<char>) -> nat
    decreases s.len(),
{
    if s.len() == 0 {
        0
    } else {
        word_count(s.drop_last()) + if !is_white_space(s.last()) && (s.len() == 1
            || is_white_space(s[s.len() - 2])) {
            1nat
        } else {
            0nat
        }
    }
}

/// Input tokens billed for a text: its word count, at least one.
pub open spec fn estimated_tokens(s: Seq<char>) -> nat {
    if word_count(s) >= 1 {
        word_count(s)
    } else {
        1
    }
}

proof fn lemma_word_count_le_len(s: Seq<char>)
    ensures
        word_count(s) <= s.len(),
    decreases s.len(),
{
    if s.len() > 0 {
        lemma_word_count_le_len(s.drop_last());
    }
}

/// Whitespace-delimited token estimate (at least one).
pub fn estimate_tokens(text: &str) -> (r: usize)
    ensures
        r == estimated_tokens(text@),
{
    let cs = chars_of(text);
    let mut count: usize = 0;
    let mut i: usize = 0;
    while i < cs.len()
        invariant
            i <= cs@.len(),
            count == word_count(cs@.take(i as int)),
            count <= i,
        decreases cs@.len() - i,
    {
        proof {
            assert(cs@.take(i + 1).drop_last() =~= cs@.take(i as int));
            lemma_word_count_le_len(cs@.take(i as int));
        }
        let here = is_whitespace(cs[i]);
        if !here && (i == 0 || is_whitespace(cs[i - 1])) {
            count = count + 1;
        }
        i = i + 1;
    }
    proof {
        assert(cs@.take(cs@.len() as int) =~= cs@);
    }
    if count >= 1 {
        count
    } else {
        1
    }
}

// ---------------------------------------------------------------------------
// Lexical tokens
// ---------------------------------------------------------------------------

/// Maximal runs of alphanumeric characters, scanned left to right.
pub open spec fn runs_from(s: Seq<char>, done: Seq<Seq<char>>, cur: Seq<char>) -> Seq<Seq<char>>
    decreases s.len(),
{
    if s.len() == 0 {
        if cur.len() > 0 {
            done.push(cur)
        } else {
            done
        }
    } else if unicode_alphanumeric(s[0]) {
        runs_from(s.drop_first(), done, cur.push(s[0]))
    } else {
        runs_from(
            s.drop_first(),
            if cur.len() > 0 {
                done.push(cur)
            } else {
                done
            },
            Seq::empty(),
        )
    }
}

/// Runs of alphanumeric characters of a text (what splitting on every other
/// character leaves, empty pieces dropped).
pub open spec fn alnum_runs(s: Seq<char>) -> Seq<Seq<char>> {
    runs_from(s, Seq::empty(), Seq::empty())
}

/// A piece shorter than two bytes in UTF-8: empty, or one ASCII character.
pub open spec fn too_short(w: Seq<char>) -> bool {
    w.len() == 0 || (w.len() == 1 && (w[0] as u32) < 0x80)
}

/// Lexical tokens of a list of runs: each run in ASCII lowercase, runs
/// shorter than two bytes dropped.
pub open spec fn kept_tokens(runs: Seq<Seq<char>>) -> Seq<Seq<char>>
    decreases runs.len(),
{
    if runs.len() == 0 {
        Seq::empty()
    } else {
        let t = ascii_lowercase(runs.last());
        if too_short(t) {
            kept_tokens(runs.drop_last())
        } else {
            kept_tokens(runs.drop_last()).push(t)
        }
    }
}

/// Lexical tokens of a text, in order, with repetition.
pub open spec fn lexical_tokens(text: Seq<char>) -> Seq<Seq<char>> {
    kept_tokens(alnum_runs(text))
}

/// Token counts in first-occurrence order.
pub open spec fn counted(tokens: Seq<Seq<char>>) -> Seq<(Seq<char>, int)>
    decreases tokens.len(),
{
    if tokens.len() == 0 {
        Seq::empty()
    } else {
        let prev = counted(tokens.drop_last());
        let t = tokens.last();
        match count_index(prev, t) {
            Some(i) => prev.update(i, (t, prev[i].1 + 1)),
            None => prev.push((t, 1)),
        }
    }
}

/// Position of `key` among counted keys, if present.
pub open spec fn count_index(e: Seq<(Seq<char>, int)>, key: Seq<char>) -> Option<int>
    decreases e.len(),
{
    if e.len() == 0 {
        None
    } else if e.last().0 == key {
        Some(e.len() - 1)
    } else {
        count_index(e.drop_last(), key)
    }
}

/// Integer view of token-count entries.
pub open spec fn count_view(e: Seq<(String, u32)>) -> Seq<(Seq<char>, int)> {
    e.map_values(|p: (String, u32)| (p.0@, p.1 as int))
}

/// Counts of a token bag: token → occurrences, in first-occurrence order.
#[derive(Debug, Clone)]
pub struct TokenSet {
    /// Occurrences of each token.
    pub counts: IndexMap<String, u32>,
}

/// Every count fits in a `u32`.
pub open spec fn counts_fit(c: Seq<(Seq<char>, int)>) -> bool {
    forall|i: int| 0 <= i < c.len() ==> #[trigger] c[i].1 <= u32::MAX
}

/// Adds `n` to the count stored under `key`: an existing key keeps its place
/// and its count grows; a new key is appended with count `n`.
fn bump_count(m: &mut IndexMap<String, u32>, key: String, n: u32)
    requires
        key_index(token_views(token_entries(*old(m))), key@) matches Some(i) ==> token_entries(
            *old(m),
        )[i].1 + n <= u32::MAX,
    ensures
        match key_index(token_views(token_entries(*old(m))), key@) {
            Some(i) => token_entries(*final(m)) == token_entries(*old(m)).update(
                i,
                (token_entries(*old(m))[i].0, (token_entries(*old(m))[i].1 + n) as u32),
            ),
            None => token_entries(*final(m)) == token_entries(*old(m)).push((key, n)),
        },
{
    let total = match token_get(m, key.as_str()) {
        Some(current) => current + n,
        None => n,
    };
    token_insert(m, key, total);
}

proof fn lemma_key_index_views(e: Seq<(String, u32)>, key: Seq<char>)
    ensures
        key_index(token_views(e), key) == count_index(count_view(e), key),
    decreases e.len(),
{
    if e.len() > 0 {
        lemma_key_index_views(e.drop_last(), key);
        assert(token_views(e).drop_last() =~= token_views(e.drop_last()));
        assert(count_view(e).drop_last() =~= count_view(e.drop_last()));
    }
}

proof fn lemma_count_index(e: Seq<(Seq<char>, int)>, key: Seq<char>)
    ensures
        match count_index(e, key) {
            Some(i) => 0 <= i < e.len() && e[i].0 == key,
            None => forall|k: int| 0 <= k < e.len() ==> #[trigger] e[k].0 != key,
        },
    decreases e.len(),
{
    if e.len() > 0 {
        lemma_count_index(e.drop_last(), key);
        if count_index(e, key) is None {
            assert forall|k: int| 0 <= k < e.len() implies #[trigger] e[k].0 != key by {
                if k < e.len() - 1 {
                    assert(e[k] == e.drop_last()[k]);
                }
            }
        }
    }
}

proof fn lemma_counted_prefix(tokens: Seq<Seq<char>>, k: int)
    requires
        0 <= k <= tokens.len(),
    ensures
        counted(tokens.take(k)).len() <= counted(tokens).len(),
        forall|i: int|
            0 <= i < counted(tokens.take(k)).len() ==> counted(tokens)[i].0 == #[trigger] counted(
                tokens.take(k),
            )[i].0 && counted(tokens.take(k))[i].1 <= counted(tokens)[i].1,
    decreases tokens.len() - k,
{
    if k < tokens.len() {
        lemma_counted_prefix(tokens, k + 1);
        let small = tokens.take(k);
        let big = tokens.take(k + 1);
        assert(big.drop_last() =~= small);
        lemma_count_index(counted(small), big.last());
        let cs = counted(small);
        let cb = counted(big);
        let ct = counted(tokens);
        assert(cs.len() <= cb.len());
        assert forall|i: int| 0 <= i < cs.len() implies ct[i].0 == #[trigger] cs[i].0 && cs[i].1
            <= ct[i].1 by {
            assert(cb[i].0 == cs[i].0 && cs[i].1 <= cb[i].1);
            assert(ct[i].0 == cb[i].0 && cb[i].1 <= ct[i].1);
        }
    } else {
        assert(tokens.take(k) =~= tokens);
    }
}

/// Add the tokens of one run to a count map.
fn add_run(counts: &mut IndexMap<String, u32>, run: &[char], Ghost(all): Ghost<Seq<Seq<char>>>, Ghost(done): Ghost<Seq<Seq<char>>>)
    requires
        count_view(token_entries(*old(counts))) == counted(kept_tokens(done)),
        counts_fit(counted(all)),
        exists|k: int| 0 <= k <= all.len() && #[trigger] all.take(k) == kept_tokens(done.push(run@)),
    ensures
        count_view(token_entries(*final(counts))) == counted(kept_tokens(done.push(run@))),
{
    let lower = ascii_lowercase_chars(run);
    proof {
        assert(done.push(run@).drop_last() =~= done);
    }
    let short = lower.len() == 0 || (lower.len() == 1 && (lower[0] as u32) < 0x80);
    if short {
        return;
    }
    let ghost before = count_view(token_entries(*counts));
    let ghost t = lower@;
    let ghost tokens = kept_tokens(done.push(run@));
    proof {
        assert(tokens.drop_last() =~= kept_tokens(done));
        lemma_key_index_views(token_entries(*counts), t);
        lemma_count_index(before, t);
        let k = choose|k: int| 0 <= k <= all.len() && #[trigger] all.take(k) == tokens;
        lemma_counted_prefix(all, k);
        if count_index(before, t) is Some {
            let i = count_index(before, t)->0;
            assert(counted(tokens)[i].1 == before[i].1 + 1);
            assert(all.take(k) == tokens);
            assert(counted(all.take(k))[i].0 == counted(tokens)[i].0);
            assert(counted(all)[i].1 >= counted(tokens)[i].1);
        }
    }
    let key = string_of(lower.as_slice());
    bump_count(counts, key, 1);
    proof {
        assert(count_view(token_entries(*counts)) =~= counted(tokens));
    }
}

proof fn lemma_kept_prefix(rv: Seq<Seq<char>>, j: int)
    requires
        0 <= j <= rv.len(),
    ensures
        kept_tokens(rv.take(j)).len() <= kept_tokens(rv).len(),
        kept_tokens(rv).take(kept_tokens(rv.take(j)).len() as int) == kept_tokens(rv.take(j)),
    decreases rv.len() - j,
{
    if j < rv.len() {
        lemma_kept_prefix(rv, j + 1);
        assert(rv.take(j + 1).drop_last() =~= rv.take(j));
        let a = kept_tokens(rv.take(j));
        let b = kept_tokens(rv.take(j + 1));
        let c = kept_tokens(rv);
        assert(b.take(a.len() as int) =~= a);
        assert(c.take(a.len() as int) =~= c.take(b.len() as int).take(a.len() as int));
    } else {
        assert(rv.take(j) =~= rv);
        assert(kept_tokens(rv).take(kept_tokens(rv).len() as int) =~= kept_tokens(rv));
    }
}

/// Split text into runs of alphanumeric characters.
fn split_runs(s: &[char]) -> (r: Vec<Vec<char>>)
    ensures
        r@.map_values(|w: Vec<char>| w@) == alnum_runs(s@),
{
    let mut done: Vec<Vec<char>> = Vec::new();
    let mut cur: Vec<char> = Vec::new();
    let mut i: usize = 0;
    proof {
        assert(s@.skip(0) == s@);
        assert(done@.map_values(|w: Vec<char>| w@) == Seq::<Seq<char>>::empty());
        assert(cur@ == Seq::<char>::empty());
    }
    while i < s.len()
        invariant
            i <= s@.len(),
            alnum_runs(s@) == runs_from(
                s@.skip(i as int),
                done@.map_values(|w: Vec<char>| w@),
                cur@,
            ),
        decreases s@.len() - i,
    {
        proof {
            assert(s@.skip(i as int).drop_first() == s@.skip(i + 1));
            assert(s@.skip(i as int)[0] == s@[i as int]);
        }
        let c = s[i];
        if is_alphanumeric(c) {
            cur.push(c);
        } else {
            if cur.len() > 0 {
                let w = cur;
                proof {
                    assert(done@.push(w).map_values(|w: Vec<char>| w@) == done@.map_values(
                        |w: Vec<char>| w@,
                    ).push(w@));
                }
                done.push(w);
            }
            cur = Vec::new();
        }
        i = i + 1;
    }
    proof {
        assert(s@.skip(s@.len() as int).len() == 0);
    }
    if cur.len() > 0 {
        let w = cur;
        proof {
            assert(done@.push(w).map_values(|w: Vec<char>| w@) == done@.map_values(
                |w: Vec<char>| w@,
            ).push(w@));
        }
        done.push(w);
    }
    done
}

impl TokenSet {
    /// Number of distinct tokens.
    pub fn len(&self) -> (r: usize)
        ensures
            r == token_entries(self.counts).len(),
    {
        token_count(&self.counts)
    }

    /// Whether `token` occurs.
    pub fn contains(&self, token: &str) -> (r: bool)
        ensures
            r == (count_index(count_view(token_entries(self.counts)), token@) is Some),
    {
        proof {
            lemma_key_index_views(token_entries(self.counts), token@);
        }
        token_contains(&self.counts, token)
    }
}

/// Count the lexical tokens of a text: runs of alphanumeric characters in
/// ASCII lowercase, runs shorter than two bytes dropped.
#[verifier::rlimit(30)]
pub fn tokenize(text: &str) -> (r: TokenSet)
    requires
        counts_fit(counted(lexical_tokens(text@))),
    ensures
        count_view(token_entries(r.counts)) == counted(lexical_tokens(text@)),
{
    let cs = chars_of(text);
    let runs = split_runs(cs.as_slice());
    let ghost rv = runs@.map_values(|w: Vec<char>| w@);
    let ghost all = lexical_tokens(text@);
    let mut counts = token_map_new();
    let mut i: usize = 0;
    proof {
        assert(rv.take(0) =~= Seq::<Seq<char>>::empty());
        assert(count_view(token_entries(counts)) =~= Seq::<(Seq<char>, int)>::empty());
    }
    while i < runs.len()
        invariant
            i <= runs@.len(),
            rv == runs@.map_values(|w: Vec<char>| w@),
            rv == alnum_runs(text@),
            all == kept_tokens(rv),
            counts_fit(counted(all)),
            count_view(token_entries(counts)) == counted(kept_tokens(rv.take(i as int))),
        decreases runs@.len() - i,
    {
        proof {
            assert(rv.take(i as int).push(runs@[i as int]@) =~= rv.take(i + 1));
            lemma_kept_prefix(rv, i + 1);
            let k = kept_tokens(rv.take(i + 1)).len() as int;
            assert(all.take(k) == kept_tokens(rv.take(i as int).push(runs@[i as int]@)));
        }
        add_run(&mut counts, runs[i].as_slice(), Ghost(all), Ghost(rv.take(i as int)));
        i = i + 1;
    }
    proof {
        assert(rv.take(runs@.len() as int) =~= rv);
    }
    TokenSet { counts }
}

/// Add `v` occurrences of key `k` to counted entries.
pub open spec fn add_count(e: Seq<(Seq<char>, int)>, k: Seq<char>, v: int) -> Seq<(Seq<char>, int)> {
    match count_index(e, k) {
        Some(i) => e.update(i, (k, e[i].1 + v)),
        None => e.push((k, v)),
    }
}

/// Counts of `a` with every entry of `b` added, in `b`'s order.
pub open spec fn merged(a: Seq<(Seq<char>, int)>, b: Seq<(Seq<char>, int)>) -> Seq<(Seq<char>, int)>
    decreases b.len(),
{
    if b.len() == 0 {
        a
    } else {
        let prev = merged(a, b.drop_last());
        add_count(prev, b.last().0, b.last().1)
    }
}

/// Shared occurrences: for each token of `a` also in `b`, the smaller count.
pub open spec fn overlap_sum(a: Seq<(Seq<char>, int)>, b: Seq<(Seq<char>, int)>) -> int
    decreases a.len(),
{
    if a.len() == 0 {
        0
    } else {
        overlap_sum(a.drop_last(), b) + match count_index(b, a.last().0) {
            Some(j) => if a.last().1 <= b[j].1 {
                a.last().1
            } else {
                b[j].1
            },
            None => 0,
        }
    }
}

proof fn lemma_merged_prefix(a: Seq<(Seq<char>, int)>, b: Seq<(Seq<char>, int)>, k: int)
    requires
        0 <= k <= b.len(),
        forall|i: int| 0 <= i < b.len() ==> #[trigger] b[i].1 >= 0,
    ensures
        merged(a, b.take(k)).len() <= merged(a, b).len(),
        forall|i: int|
            0 <= i < merged(a, b.take(k)).len() ==> merged(a, b)[i].0 == #[trigger] merged(
                a,
                b.take(k),
            )[i].0 && merged(a, b.take(k))[i].1 <= merged(a, b)[i].1,
    decreases b.len() - k,
{
    if k < b.len() {
        lemma_merged_prefix(a, b, k + 1);
        let small = b.take(k);
        let big = b.take(k + 1);
        assert(big.drop_last() =~= small);
        lemma_count_index(merged(a, small), big.last().0);
        let cs = merged(a, small);
        let cb = merged(a, big);
        let ct = merged(a, b);
        assert(big.last().1 >= 0);
        assert forall|i: int| 0 <= i < cs.len() implies ct[i].0 == #[trigger] cs[i].0 && cs[i].1
            <= ct[i].1 by {
            assert(cb[i].0 == cs[i].0 && cs[i].1 <= cb[i].1);
            assert(ct[i].0 == cb[i].0 && cb[i].1 <= ct[i].1);
        }
    } else {
        assert(b.take(k) =~= b);
    }
}

proof fn lemma_overlap_prefix(a: Seq<(Seq<char>, int)>, b: Seq<(Seq<char>, int)>, k: int)
    requires
        0 <= k <= a.len(),
        forall|i: int| 0 <= i < a.len() ==> #[trigger] a[i].1 >= 0,
        forall|i: int| 0 <= i < b.len() ==> #[trigger] b[i].1 >= 0,
    ensures
        0 <= overlap_sum(a.take(k), b) <= overlap_sum(a, b),
    decreases a.len() - k,
{
    if k < a.len() {
        lemma_overlap_prefix(a, b, k + 1);
        assert(a.take(k + 1).drop_last() =~= a.take(k));
        assert(a.take(k + 1).last() == a[k]);
        lemma_count_index(b, a[k].0);
        assert forall|i: int| 0 <= i < a.take(k).len() implies #[trigger] a.take(k)[i].1 >= 0 by {
            assert(a.take(k)[i] == a[i]);
        }
        lemma_overlap_nonneg(a.take(k), b);
    } else {
        assert(a.take(k) =~= a);
        lemma_overlap_nonneg(a, b);
    }
}

proof fn lemma_overlap_nonneg(a: Seq<(Seq<char>, int)>, b: Seq<(Seq<char>, int)>)
    requires
        forall|i: int| 0 <= i < a.len() ==> #[trigger] a[i].1 >= 0,
        forall|i: int| 0 <= i < b.len() ==> #[trigger] b[i].1 >= 0,
    ensures
        overlap_sum(a, b) >= 0,
    decreases a.len(),
{
    if a.len() > 0 {
        lemma_overlap_nonneg(a.drop_last(), b);
        lemma_count_index(b, a.last().0);
    }
}

proof fn lemma_merged_distinct(a: Seq<(Seq<char>, int)>, k: int)
    requires
        0 <= k <= a.len(),
        forall|i: int, j: int| 0 <= i < j < a.len() ==> a[i].0 != a[j].0,
    ensures
        merged(Seq::empty(), a.take(k)) == a.take(k),
    decreases k,
{
    if k > 0 {
        lemma_merged_distinct(a, k - 1);
        let t = a.take(k);
        assert(t.drop_last() =~= a.take(k - 1));
        lemma_count_index(a.take(k - 1), a[k - 1].0);
        if count_index(a.take(k - 1), a[k - 1].0) is Some {
            let j = count_index(a.take(k - 1), a[k - 1].0)->0;
            assert(a[j].0 == a[k - 1].0);
        }
        assert(a.take(k - 1).push((a[k - 1].0, a[k - 1].1)) =~= t);
    }
}

proof fn lemma_count_view_push(e: Seq<(String, u32)>, key: String, n: u32)
    ensures
        count_view(e.push((key, n))) == count_view(e).push((key@, n as int)),
{
    assert(count_view(e.push((key, n))) =~= count_view(e).push((key@, n as int)));
}

impl TokenSet {
    /// Add every count of `other` to this bag when no count would pass
    /// `u32::MAX`; otherwise leave the bag as it was. Says whether it merged.
    #[verifier::rlimit(40)]
    pub fn try_merge(&mut self, other: &TokenSet) -> (r: bool)
        ensures
            r == counts_fit(
                merged(count_view(token_entries(old(self).counts)), count_view(token_entries(other.counts))),
            ),
            r ==> count_view(token_entries(final(self).counts)) == merged(
                count_view(token_entries(old(self).counts)),
                count_view(token_entries(other.counts)),
            ),
            !r ==> final(self).counts == old(self).counts,
    {
        let ghost a = count_view(token_entries(self.counts));
        let ghost b = count_view(token_entries(other.counts));
        let na = token_count(&self.counts);
        let mut scratch = token_map_new();
        let mut i: usize = 0;
        proof {
            assert(a.take(0) =~= Seq::<(Seq<char>, int)>::empty());
            assert(count_view(token_entries(scratch)) =~= Seq::<(Seq<char>, int)>::empty());
        }
        while i < na
            invariant
                na == token_entries(self.counts).len(),
                a == count_view(token_entries(self.counts)),
                forall|x: int, y: int| 0 <= x < y < na ==> a[x].0 != a[y].0,
                i <= na,
                count_view(token_entries(scratch)) == a.take(i as int),
            decreases na - i,
        {
            let (k, v) = token_at(&self.counts, i);
            proof {
                lemma_key_index_views(token_entries(scratch), k@);
                lemma_count_index(a.take(i as int), k@);
                if count_index(a.take(i as int), k@) is Some {
                    let j = count_index(a.take(i as int), k@)->0;
                    assert(a[j].0 == a[i as int].0);
                }
                lemma_count_view_push(token_entries(scratch), *k, v);
                assert(a.take(i + 1) =~= a.take(i as int).push((k@, v as int)));
            }
            bump_count(&mut scratch, k.clone(), v);
            i = i + 1;
        }
        proof {
            assert(a.take(na as int) =~= a);
            lemma_merged_distinct(a, na as int);
            assert(merged(Seq::empty(), a) == a);
        }
        let n = token_count(&other.counts);
        let mut i: usize = 0;
        proof {
            assert(b.take(0) =~= Seq::<(Seq<char>, int)>::empty());
        }
        while i < n
            invariant
                n == token_entries(other.counts).len(),
                b == count_view(token_entries(other.counts)),
                a == count_view(token_entries(self.counts)),
                i <= n,
                count_view(token_entries(scratch)) == merged(a, b.take(i as int)),
                counts_fit(merged(a, b.take(i as int))),
            decreases n - i,
        {
            let (k, v) = token_at(&other.counts, i);
            let ghost cur = count_view(token_entries(scratch));
            proof {
                assert(b.take(i + 1).drop_last() =~= b.take(i as int));
                assert(b.take(i + 1).last() == (k@, v as int));
                lemma_key_index_views(token_entries(scratch), k@);
                lemma_count_index(cur, k@);
                assert forall|j: int| 0 <= j < b.len() implies #[trigger] b[j].1 >= 0 by {}
                lemma_merged_prefix(a, b, i + 1);
            }
            match token_get(&scratch, k.as_str()) {
                Some(c) => {
                    if v > u32::MAX - c {
                        proof {
                            let j = count_index(cur, k@)->0;
                            assert(c == cur[j].1);
                            assert(merged(a, b.take(i + 1))[j].1 == cur[j].1 + v);
                            assert(j < merged(a, b.take(i + 1)).len());
                            assert(merged(a, b)[j].0 == merged(a, b.take(i + 1))[j].0);
                            assert(merged(a, b)[j].1 > u32::MAX);
                        }
                        return false;
                    }
                },
                None => {},
            }
            proof {
                if count_index(cur, k@) is Some {
                    let j = count_index(cur, k@)->0;
                    assert(merged(a, b.take(i + 1))[j].1 == cur[j].1 + v);
                }
            }
            bump_count(&mut scratch, k.clone(), v);
            proof {
                assert(count_view(token_entries(scratch)) =~= merged(a, b.take(i + 1)));
                let m2 = merged(a, b.take(i + 1));
                assert forall|x: int| 0 <= x < m2.len() implies #[trigger] m2[x].1 <= u32::MAX by {
                    assert(count_view(token_entries(scratch))[x] == m2[x]);
                }
            }
            i = i + 1;
        }
        proof {
            assert(b.take(n as int) =~= b);
        }
        self.counts = scratch;
        true
    }

    /// Add every count of `other` to this bag.
    #[verifier::rlimit(30)]
    pub fn merge(&mut self, other: &TokenSet)
        requires
            counts_fit(
                merged(count_view(token_entries(old(self).counts)), count_view(token_entries(other.counts))),
            ),
        ensures
            count_view(token_entries(final(self).counts)) == merged(
                count_view(token_entries(old(self).counts)),
                count_view(token_entries(other.counts)),
            ),
    {
        let ghost a = count_view(token_entries(self.counts));
        let ghost b = count_view(token_entries(other.counts));
        let n = token_count(&other.counts);
        let mut i: usize = 0;
        proof {
            assert(b.take(0) =~= Seq::<(Seq<char>, int)>::empty());
        }
        while i < n
            invariant
                n == token_entries(other.counts).len(),
                b == count_view(token_entries(other.counts)),
                i <= n,
                counts_fit(merged(a, b)),
                count_view(token_entries(self.counts)) == merged(a, b.take(i as int)),
            decreases n - i,
        {
            let (k, v) = token_at(&other.counts, i);
            let ghost cur = count_view(token_entries(self.counts));
            proof {
                assert(b.take(i + 1).drop_last() =~= b.take(i as int));
                assert(b.take(i + 1).last() == (k@, v as int));
                lemma_key_index_views(token_entries(self.counts), k@);
                lemma_count_index(cur, k@);
                assert forall|j: int| 0 <= j < b.len() implies #[trigger] b[j].1 >= 0 by {}
                lemma_merged_prefix(a, b, i + 1);
                if count_index(cur, k@) is Some {
                    let j = count_index(cur, k@)->0;
                    assert(merged(a, b.take(i + 1))[j].1 == cur[j].1 + v);
                    assert(merged(a, b.take(i + 1))[j].0 == merged(a, b)[j].0);
                }
            }
            bump_count(&mut self.counts, k.clone(), v);
            proof {
                assert(count_view(token_entries(self.counts)) =~= merged(a, b.take(i + 1)));
            }
            i = i + 1;
        }
        proof {
            assert(b.take(n as int) =~= b);
        }
    }
}

/// Shared token occurrences of two bags, or `None` when that sum passes
/// `u32::MAX`.
pub fn overlap_checked(a: &TokenSet, b: &TokenSet) -> (r: Option<u32>)
    ensures
        match r {
            Some(v) => v == overlap_sum(
                count_view(token_entries(a.counts)),
                count_view(token_entries(b.counts)),
            ),
            None => overlap_sum(count_view(token_entries(a.counts)), count_view(token_entries(b.counts)))
                > u32::MAX,
        },
{
    let ghost av = count_view(token_entries(a.counts));
    let ghost bv = count_view(token_entries(b.counts));
    let n = token_count(&a.counts);
    let mut total: u32 = 0;
    let mut i: usize = 0;
    proof {
        assert(av.take(0) =~= Seq::<(Seq<char>, int)>::empty());
    }
    while i < n
        invariant
            n == token_entries(a.counts).len(),
            av == count_view(token_entries(a.counts)),
            bv == count_view(token_entries(b.counts)),
            i <= n,
            total == overlap_sum(av.take(i as int), bv),
        decreases n - i,
    {
        let (tok, ca) = token_at(&a.counts, i);
        proof {
            assert(av.take(i + 1).drop_last() =~= av.take(i as int));
            assert(av.take(i + 1).last() == (tok@, ca as int));
            lemma_key_index_views(token_entries(b.counts), tok@);
            assert forall|j: int| 0 <= j < av.len() implies #[trigger] av[j].1 >= 0 by {}
            assert forall|j: int| 0 <= j < bv.len() implies #[trigger] bv[j].1 >= 0 by {}
            lemma_overlap_prefix(av, bv, i + 1);
            lemma_count_index(bv, tok@);
        }
        match token_get(&b.counts, tok.as_str()) {
            Some(cb) => {
                let m = if ca <= cb {
                    ca
                } else {
                    cb
                };
                if m > u32::MAX - total {
                    return None;
                }
                total = total + m;
            },
            None => {},
        }
        i = i + 1;
    }
    proof {
        assert(av.take(n as int) =~= av);
    }
    Some(total)
}

/// Shared token occurrences of two bags (sum of the smaller counts).
pub fn overlap(a: &TokenSet, b: &TokenSet) -> (r: u32)
    requires
        overlap_sum(count_view(token_entries(a.counts)), count_view(token_entries(b.counts)))
            <= u32::MAX,
    ensures
        r == overlap_sum(count_view(token_entries(a.counts)), count_view(token_entries(b.counts))),
{
    let ghost av = count_view(token_entries(a.counts));
    let ghost bv = count_view(token_entries(b.counts));
    let n = token_count(&a.counts);
    let mut total: u32 = 0;
    let mut i: usize = 0;
    proof {
        assert(av.take(0) =~= Seq::<(Seq<char>, int)>::empty());
    }
    while i < n
        invariant
            n == token_entries(a.counts).len(),
            av == count_view(token_entries(a.counts)),
            bv == count_view(token_entries(b.counts)),
            i <= n,
            overlap_sum(av, bv) <= u32::MAX,
            total == overlap_sum(av.take(i as int), bv),
        decreases n - i,
    {
        let (tok, ca) = token_at(&a.counts, i);
        proof {
            assert(av.take(i + 1).drop_last() =~= av.take(i as int));
            assert(av.take(i + 1).last() == (tok@, ca as int));
            lemma_key_index_views(token_entries(b.counts), tok@);
            assert forall|j: int| 0 <= j < av.len() implies #[trigger] av[j].1 >= 0 by {}
            assert forall|j: int| 0 <= j < bv.len() implies #[trigger] bv[j].1 >= 0 by {}
            lemma_overlap_prefix(av, bv, i + 1);
            lemma_count_index(bv, tok@);
        }
        match token_get(&b.counts, tok.as_str()) {
            Some(cb) => {
                let m = if ca <= cb {
                    ca
                } else {
                    cb
                };
                total = total + m;
            },
            None => {},
        }
        i = i + 1;
    }
    proof {
        assert(av.take(n as int) =~= av);
    }
    total
}

proof fn lemma_runs_len(s: Seq<char>, done: Seq<Seq<char>>, cur: Seq<char>)
    ensures
        runs_from(s, done, cur).len() <= done.len() + (if cur.len() > 0 {
            1int
        } else {
            0
        }) + s.len(),
    decreases s.len(),
{
    if s.len() > 0 {
        if unicode_alphanumeric(s[0]) {
            lemma_runs_len(s.drop_first(), done, cur.push(s[0]));
        } else {
            lemma_runs_len(
                s.drop_first(),
                if cur.len() > 0 {
                    done.push(cur)
                } else {
                    done
                },
                Seq::empty(),
            );
        }
    }
}

proof fn lemma_kept_len(runs: Seq<Seq<char>>)
    ensures
        kept_tokens(runs).len() <= runs.len(),
    decreases runs.len(),
{
    if runs.len() > 0 {
        lemma_kept_len(runs.drop_last());
    }
}

proof fn lemma_counted_bound(tokens: Seq<Seq<char>>)
    ensures
        counted(tokens).len() <= tokens.len(),
        forall|i: int| 0 <= i < counted(tokens).len() ==> 1 <= #[trigger] counted(tokens)[i].1 <= tokens.len(),
    decreases tokens.len(),
{
    if tokens.len() > 0 {
        lemma_counted_bound(tokens.drop_last());
        lemma_count_index(counted(tokens.drop_last()), tokens.last());
    }
}

/// [`tokenize`] for any text: `None` when the text has more than `u32::MAX`
/// characters (a count could then overflow), the counts otherwise.
pub fn tokenize_checked(text: &str) -> (r: Option<TokenSet>)
    ensures
        match r {
            Some(t) => text@.len() <= u32::MAX && count_view(token_entries(t.counts)) == counted(
                lexical_tokens(text@),
            ),
            None => text@.len() > u32::MAX,
        },
{
    let n = chars_of(text).len();
    if n > 0xffff_ffffusize {
        return None;
    }
    proof {
        lemma_runs_len(text@, Seq::empty(), Seq::empty());
        lemma_kept_len(alnum_runs(text@));
        lemma_counted_bound(lexical_tokens(text@));
    }
    Some(tokenize(text))
}

/// Validate a question and render its options, reporting an invalid
/// question under its id.
pub fn prepared_options(id: &str, question: &Question) -> (r: Result<Vec<(String, String)>>)
    ensures
        match question_problem(*question) {
            Some(reason) => r matches Err(Error::InvalidQuestion { id: i, reason: rr }) && i@ == id@
                && rr@ == reason,
            None => match rendered_options(*question) {
                Ok(s) => r matches Ok(v) && pair_views(v@) == s,
                Err(reason) => r matches Err(Error::InvalidQuestion { id: i, reason: rr }) && i@
                    == id@ && rr@ == reason,
            },
        },
{
    match question.validate() {
        Ok(()) => {},
        Err(Error::InvalidQuestion { reason, .. }) => {
            return Err(Error::InvalidQuestion { id: String::from_str(id), reason });
        },
        Err(other) => {
            return Err(other);
        },
    }
    match render_options(question) {
        Ok(v) => Ok(v),
        Err(Error::InvalidQuestion { reason, .. }) => Err(
            Error::InvalidQuestion { id: String::from_str(id), reason },
        ),
        Err(other) => Err(other),
    }
}

/// Add the token estimate of `text` to a running input-token count
/// (`as u32`, saturating).
pub fn add_estimated(acc: u32, text: &str) -> (r: u32)
    ensures
        r == add_tokens(acc as int, estimated_tokens(text@) as int),
{
    let n = estimate_tokens(text);
    proof {
        assert((n as u32) as int == (n as int) % 0x1_0000_0000) by (bit_vector);
    }
    acc.saturating_add(n as u32)
}

/// Words in the state that nudge a `noul` answer towards `true`.
pub open spec fn affirmative_cues() -> Seq<Seq<char>> {
    seq![
        "please"@,
        "refund"@,
        "cancel"@,
        "urgent"@,
        "fail"@,
        "failed"@,
        "twice"@,
        "duplicate"@,
        "threat"@,
        "asap"@,
    ]
}

/// How many of `cues` occur among counted tokens (a cue listed twice counts twice).
pub open spec fn cues_present(e: Seq<(Seq<char>, int)>, cues: Seq<Seq<char>>) -> nat
    decreases cues.len(),
{
    if cues.len() == 0 {
        0
    } else {
        cues_present(e, cues.drop_last()) + if count_index(e, cues.last()) is Some {
            1nat
        } else {
            0nat
        }
    }
}

/// Number of affirmative cues that occur in the state tokens.
pub fn affirmative_cue_hits(state: &TokenSet) -> (r: usize)
    ensures
        r == cues_present(count_view(token_entries(state.counts)), affirmative_cues()),
{
    let cues: Vec<&str> = vec![
        "please",
        "refund",
        "cancel",
        "urgent",
        "fail",
        "failed",
        "twice",
        "duplicate",
        "threat",
        "asap",
    ];
    let ghost e = count_view(token_entries(state.counts));
    let ghost spec_cues = affirmative_cues();
    assert(cues@.map_values(|c: &str| c@) =~= spec_cues);
    let mut hits: usize = 0;
    let mut i: usize = 0;
    while i < cues.len()
        invariant
            i <= cues@.len(),
            cues@.len() == 10,
            cues@.map_values(|c: &str| c@) == spec_cues,
            spec_cues == affirmative_cues(),
            e == count_view(token_entries(state.counts)),
            hits == cues_present(e, spec_cues.take(i as int)),
            hits <= i,
        decreases cues@.len() - i,
    {
        assert(spec_cues.take(i as int + 1).drop_last() =~= spec_cues.take(i as int));
        assert(spec_cues.take(i as int + 1).last() == cues@[i as int]@);
        if state.contains(cues[i]) {
            hits = hits + 1;
        }
        i = i + 1;
    }
    assert(spec_cues.take(10) =~= spec_cues);
    hits
}

} // verus!
