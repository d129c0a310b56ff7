//! Residency bookkeeping of the checkpoint registry: which checkpoints stay
//! loaded, in least-recently-used order, under a cap.

use vstd::prelude::*;

use crate::route::CheckpointId;

verus! {

/// Resident checkpoints, least recently used first, with the cap on how many
/// stay loaded.
#[derive(Debug, Clone)]
pub struct ResidentSet {
    /// Resident ids, least recently used first; no id twice.
    pub order: Vec<CheckpointId>,
    /// Most checkpoints kept loaded (at least one).
    pub max_loaded: usize,
}

/// `s` with every occurrence of `id` removed, the rest in order.
pub open spec fn without(s: Seq<CheckpointId>, id: CheckpointId) -> Seq<CheckpointId>
    decreases s.len(),
{
    if s.len() == 0 {
        Seq::empty()
    } else if s.last() == id {
        without(s.drop_last(), id)
    } else {
        without(s.drop_last(), id).push(s.last())
    }
}

proof fn lemma_without(s: Seq<CheckpointId>, id: CheckpointId)
    ensures
        forall|x: CheckpointId| #[trigger] without(s, id).contains(x) <==> (s.contains(x) && x != id),
        s.no_duplicates() ==> without(s, id).no_duplicates(),
    decreases s.len(),
{
    if s.len() > 0 {
        let p = s.drop_last();
        lemma_without(p, id);
        assert(s =~= p.push(s.last()));
        let w = without(p, id);
        assert forall|x: CheckpointId| #[trigger] without(s, id).contains(x) <==> (s.contains(x)
            && x != id) by {
            if s.contains(x) && x != id {
                let k = choose|k: int| 0 <= k < s.len() && s[k] == x;
                if k < s.len() - 1 {
                    assert(p[k] == x);
                    assert(p.contains(x));
                    assert(w.contains(x));
                    let j = choose|j: int| 0 <= j < w.len() && w[j] == x;
                    if s.last() != id {
                        assert(w.push(s.last())[j] == x);
                    }
                } else {
                    assert(w.push(s.last())[w.len() as int] == x);
                }
            }
            if without(s, id).contains(x) {
                let ws = without(s, id);
                let j = choose|j: int| 0 <= j < ws.len() && ws[j] == x;
                if s.last() == id || j < w.len() {
                    assert(w[j] == x);
                    assert(w.contains(x));
                    assert(p.contains(x));
                    let k = choose|k: int| 0 <= k < p.len() && p[k] == x;
                    assert(s[k] == x);
                } else {
                    assert(x == s.last());
                    assert(s[s.len() - 1] == x);
                }
            }
        }
        if s.no_duplicates() && s.last() != id {
            let w = without(p, id);
            assert(p.no_duplicates());
            assert(!p.contains(s.last())) by {
                if p.contains(s.last()) {
                    let k = choose|k: int| 0 <= k < p.len() && p[k] == s.last();
                    assert(s[k] == s[s.len() - 1]);
                }
            }
            assert(!w.contains(s.last()));
            assert forall|a: int, b: int| 0 <= a < b < w.push(s.last()).len() implies w.push(
                s.last(),
            )[a] != w.push(s.last())[b] by {
                if b == w.len() {
                    assert(w.contains(w[a]));
                }
            }
        }
    }
}

/// How many least-recent entries an eviction drops.
/// Order after `id` is used: `id` moves to the most recent end, then only the
/// `max_loaded` most recent ids are kept.
pub open spec fn after_use(order: Seq<CheckpointId>, id: CheckpointId, max_loaded: int) -> Seq<
    CheckpointId,
> {
    let t = without(order, id).push(id);
    t.skip(excess(t.len() as int, max_loaded))
}

pub open spec fn excess(len: int, max_loaded: int) -> int {
    if len > max_loaded {
        len - max_loaded
    } else {
        0
    }
}

impl ResidentSet {
    /// Well-formed: no id twice and a cap of at least one.
    pub open spec fn wf(&self) -> bool {
        self.order@.no_duplicates() && self.max_loaded >= 1
    }

    /// An empty resident set with the given cap (at least one).
    pub fn new(max_loaded: usize) -> (r: Self)
        ensures
            r.wf(),
            r.order@.len() == 0,
            r.max_loaded == if max_loaded >= 1 {
                max_loaded
            } else {
                1
            },
    {
        let cap = if max_loaded >= 1 {
            max_loaded
        } else {
            1
        };
        ResidentSet { order: Vec::new(), max_loaded: cap }
    }

    /// Whether `id` is resident.
    pub fn contains(&self, id: CheckpointId) -> (r: bool)
        ensures
            r == self.order@.contains(id),
    {
        let mut i: usize = 0;
        while i < self.order.len()
            invariant
                i <= self.order@.len(),
                forall|k: int| 0 <= k < i ==> self.order@[k] != id,
            decreases self.order@.len() - i,
        {
            if self.order[i] == id {
                return true;
            }
            i = i + 1;
        }
        false
    }

    /// Mark `id` as most recently used: it moves (or is added) to the back,
    /// the others keep their order.
    pub fn touch(&mut self, id: CheckpointId)
        requires
            old(self).wf(),
        ensures
            final(self).wf(),
            final(self).max_loaded == old(self).max_loaded,
            final(self).order@ == without(old(self).order@, id).push(id),
    {
        let ghost before = self.order@;
        let mut kept: Vec<CheckpointId> = Vec::new();
        let mut i: usize = 0;
        while i < self.order.len()
            invariant
                i <= self.order@.len(),
                self.order@ == before,
                kept@ == without(before.take(i as int), id),
            decreases self.order@.len() - i,
        {
            proof {
                assert(before.take(i + 1).drop_last() =~= before.take(i as int));
            }
            if self.order[i] != id {
                kept.push(self.order[i]);
            }
            i = i + 1;
        }
        proof {
            assert(before.take(before.len() as int) =~= before);
            lemma_without(before, id);
        }
        kept.push(id);
        self.order = kept;
        proof {
            let w = without(before, id);
            assert(!w.contains(id));
            assert forall|a: int, b: int| 0 <= a < b < self.order@.len() implies self.order@[a]
                != self.order@[b] by {
                if b == self.order@.len() - 1 {
                    assert(w.contains(w[a]));
                }
            }
        }
    }

    /// Mark `id` as just used and drop least-recently-used ids beyond the cap;
    /// the dropped ids are returned, least recent first.
    pub fn mark_loaded(&mut self, id: CheckpointId) -> (victims: Vec<CheckpointId>)
        requires
            old(self).wf(),
        ensures
            final(self).wf(),
            final(self).max_loaded == old(self).max_loaded,
            final(self).order@ == after_use(old(self).order@, id, old(self).max_loaded as int),
            victims@ == without(old(self).order@, id).push(id).take(
                excess(
                    (without(old(self).order@, id).len() + 1) as int,
                    old(self).max_loaded as int,
                ),
            ),
    {
        self.touch(id);
        self.evict()
    }

    /// Drop least-recently-used ids until at most `max_loaded` remain; the
    /// dropped ids are returned, least recent first.
    pub fn evict(&mut self) -> (victims: Vec<CheckpointId>)
        requires
            old(self).wf(),
        ensures
            final(self).wf(),
            final(self).max_loaded == old(self).max_loaded,
            victims@ == old(self).order@.take(
                excess(old(self).order@.len() as int, old(self).max_loaded as int),
            ),
            final(self).order@ == old(self).order@.skip(
                excess(old(self).order@.len() as int, old(self).max_loaded as int),
            ),
    {
        let ghost before = self.order@;
        let n = self.order.len();
        let k = if n > self.max_loaded {
            n - self.max_loaded
        } else {
            0
        };
        let mut victims: Vec<CheckpointId> = Vec::new();
        let mut rest: Vec<CheckpointId> = Vec::new();
        let mut i: usize = 0;
        while i < n
            invariant
                n == before.len(),
                self.order@ == before,
                k <= n,
                i <= n,
                victims@ == before.take(if i < k {
                    i as int
                } else {
                    k as int
                }),
                rest@ == if i < k {
                    Seq::<CheckpointId>::empty()
                } else {
                    before.subrange(k as int, i as int)
                },
            decreases n - i,
        {
            if i < k {
                victims.push(self.order[i]);
                proof {
                    assert(before.take(i + 1) =~= before.take(i as int).push(before[i as int]));
                }
            } else {
                rest.push(self.order[i]);
                proof {
                    assert(before.subrange(k as int, i + 1) =~= before.subrange(k as int, i as int).push(before[i as int]));
                }
            }
            i = i + 1;
        }
        proof {
            if n <= k {
                assert(before.subrange(k as int, n as int) =~= Seq::<CheckpointId>::empty());
            }
            assert(before.subrange(k as int, n as int) =~= before.skip(k as int));
        }
        self.order = rest;
        proof {
            assert forall|a: int, b: int| 0 <= a < b < self.order@.len() implies self.order@[a]
                != self.order@[b] by {
                assert(self.order@[a] == before[a + k]);
                assert(self.order@[b] == before[b + k]);
            }
        }
        victims
    }

    /// Raise the cap to at least `n` (and at least one).
    pub fn raise_limit(&mut self, n: usize)
        requires
            old(self).wf(),
        ensures
            final(self).wf(),
            final(self).order@ == old(self).order@,
            final(self).max_loaded == if n > old(self).max_loaded {
                n
            } else {
                old(self).max_loaded
            },
    {
        if n > self.max_loaded {
            self.max_loaded = n;
        }
    }
}

/// Touching keeps every other resident and makes `id` the most recent.
pub proof fn lemma_touch_keeps_others(order: Seq<CheckpointId>, id: CheckpointId, other: CheckpointId)
    ensures
        without(order, id).push(id).last() == id,
        other != id ==> (without(order, id).push(id).contains(other) == order.contains(other)),
{
    lemma_without(order, id);
    let w = without(order, id);
    if w.push(id).contains(other) && other != id {
        let j = choose|j: int| 0 <= j < w.push(id).len() && w.push(id)[j] == other;
        assert(j < w.len());
        assert(w.contains(other));
    }
    if w.contains(other) {
        let j = choose|j: int| 0 <= j < w.len() && w[j] == other;
        assert(w.push(id)[j] == other);
    }
}

/// After an eviction at most `max_loaded` checkpoints stay, and they are the
/// most recently used ones.
pub proof fn lemma_evict_keeps_most_recent(order: Seq<CheckpointId>, max_loaded: int)
    requires
        max_loaded >= 1,
    ensures
        order.skip(excess(order.len() as int, max_loaded)).len() <= max_loaded,
        order.len() > 0 ==> order.skip(excess(order.len() as int, max_loaded)).last()
            == order.last(),
{
}

/// Loading a checkpoint leaves it the most recent resident, keeps at most
/// `max_loaded` residents, keeps every other resident among the most recent
/// ones in its old relative order, and drops nothing when the cap allows.
pub proof fn lemma_mark_loaded(order: Seq<CheckpointId>, id: CheckpointId, max_loaded: int)
    requires
        max_loaded >= 1,
    ensures
        after_use(order, id, max_loaded).len() > 0,
        after_use(order, id, max_loaded).last() == id,
        after_use(order, id, max_loaded).len() <= max_loaded,
        without(order, id).len() < max_loaded ==> after_use(order, id, max_loaded)
            == without(order, id).push(id),
{
    let t = without(order, id).push(id);
    lemma_evict_keeps_most_recent(t, max_loaded);
    if without(order, id).len() < max_loaded {
        assert(t.skip(0) =~= t);
    }
}

} // verus!
