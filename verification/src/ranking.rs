//! The files that import the most: the import graph's entries ordered by
//! their number of imports, largest first, ties kept in graph order, and
//! cut after the first ten.
use vstd::prelude::*;
use crate::mapper::CodeMapper;

verus! {

/// How many entries `most_connected_files` reports at most.
pub const TOP_CONNECTED: usize = 10;

/// Entry `a` of `g` comes before entry `b`: it has more imports, or as
/// many and stands earlier.
pub open spec fn placed_before(g: Seq<(Seq<char>, Seq<Seq<char>>)>, a: int, b: int) -> bool {
    g[a].1.len() > g[b].1.len() || (g[a].1.len() == g[b].1.len() && a < b)
}

/// The number of entries among the first `m` of `g` that come before entry `i`.
pub open spec fn count_before(g: Seq<(Seq<char>, Seq<Seq<char>>)>, i: int, m: int) -> nat
    decreases m,
{
    if m <= 0 {
        0
    } else {
        count_before(g, i, m - 1) + if placed_before(g, m - 1, i) {
            1nat
        } else {
            0nat
        }
    }
}

/// The position of entry `i` of `g` once the entries are ordered by their
/// number of imports, largest first, ties in graph order.
pub open spec fn rank(g: Seq<(Seq<char>, Seq<Seq<char>>)>, i: int) -> nat {
    count_before(g, i, g.len() as int)
}

/// The number of set flags among the first `m` of `t`.
pub open spec fn count_set(t: Seq<bool>, m: int) -> nat
    decreases m,
{
    if m <= 0 {
        0
    } else {
        count_set(t, m - 1) + if t[m - 1] {
            1nat
        } else {
            0nat
        }
    }
}

pub proof fn lemma_count_same(g: Seq<(Seq<char>, Seq<Seq<char>>)>, i: int, t: Seq<bool>, m: int)
    requires
        m <= t.len(),
        forall|j: int| 0 <= j < m ==> (#[trigger] placed_before(g, j, i) <==> t[j]),
    ensures
        count_before(g, i, m) == count_set(t, m),
    decreases m,
{
    if m > 0 {
        lemma_count_same(g, i, t, m - 1);
    }
}

pub proof fn lemma_count_set_update(t: Seq<bool>, b: int, m: int)
    requires
        0 <= b < t.len(),
        !t[b],
        m <= t.len(),
    ensures
        count_set(t.update(b, true), m) == count_set(t, m) + if b < m {
            1nat
        } else {
            0nat
        },
    decreases m,
{
    if m > 0 {
        lemma_count_set_update(t, b, m - 1);
    }
}

pub proof fn lemma_count_set_zero(t: Seq<bool>, m: int)
    requires
        m <= t.len(),
        forall|j: int| 0 <= j < m ==> !t[j],
    ensures
        count_set(t, m) == 0,
    decreases m,
{
    if m > 0 {
        lemma_count_set_zero(t, m - 1);
    }
}

pub proof fn lemma_count_set_bound(t: Seq<bool>, m: int)
    requires
        0 <= m <= t.len(),
    ensures
        count_set(t, m) <= m,
        count_set(t, m) == m ==> forall|j: int| 0 <= j < m ==> t[j],
    decreases m,
{
    if m > 0 {
        lemma_count_set_bound(t, m - 1);
    }
}

/// `e` is the entry of `counts` whose rank in `g` is `q`.
pub open spec fn ranked_entry(
    g: Seq<(Seq<char>, Seq<Seq<char>>)>,
    counts: Seq<(Seq<char>, nat)>,
    e: (Seq<char>, nat),
    q: int,
) -> bool {
    exists|i: int| 0 <= i < g.len() && rank(g, i) == q && e == #[trigger] counts[i]
}

impl CodeMapper {
    /// The entries of the import graph with their number of imports.
    pub open spec fn connection_counts(&self) -> Seq<(Seq<char>, nat)> {
        self.graph_view().map_values(|e: (Seq<char>, Seq<Seq<char>>)| (e.0, e.1.len()))
    }

    /// `r` is the most-connected list of the import graph: the entries of
    /// rank `0`, `1`, ... (at most ten), each the file with its number of
    /// imports, by non-increasing number of imports.
    pub open spec fn is_most_connected(&self, r: Seq<(String, usize)>) -> bool {
        &&& r.len() == if self.graph@.len() < TOP_CONNECTED {
            self.graph@.len()
        } else {
            TOP_CONNECTED as nat
        }
        &&& forall|k: int|
            0 <= k < r.len() ==> ranked_entry(
                self.graph_view(),
                self.connection_counts(),
                (#[trigger] r[k].0@, r[k].1 as nat),
                k,
            )
        &&& forall|i: int|
            0 <= i < self.graph@.len() && #[trigger] rank(self.graph_view(), i) < r.len() ==> (
            r[rank(self.graph_view(), i) as int].0@,
            r[rank(self.graph_view(), i) as int].1 as nat,
        ) == self.connection_counts()[i]
        &&& forall|a: int, b: int| 0 <= a < b < r.len() ==> #[trigger] r[a].1 >= #[trigger] r[b].1
    }

    /// The (at most ten) files of the import graph with the most imports, by
    /// decreasing number of imports, ties in graph order, each with its
    /// number of imports.
    pub fn most_connected_files(&self) -> (r: Vec<(String, usize)>)
        ensures
            self.is_most_connected(r@),
    {
        let ghost g = self.graph_view();
        let n = self.graph.len();
        let limit = if n < TOP_CONNECTED {
            n
        } else {
            TOP_CONNECTED
        };
        let mut taken: Vec<bool> = Vec::new();
        let mut z: usize = 0;
        while z < n
            invariant
                z <= n,
                taken@.len() == z,
                forall|j: int| 0 <= j < z ==> !taken@[j],
            decreases n - z,
        {
            taken.push(false);
            z += 1;
        }
        proof {
            lemma_count_set_zero(taken@, n as int);
        }
        let mut r: Vec<(String, usize)> = Vec::new();
        let mut k: usize = 0;
        while k < limit
            invariant
                g == self.graph_view(),
                n == self.graph@.len(),
                g.len() == n,
                limit <= n,
                limit <= TOP_CONNECTED,
                k <= limit,
                taken@.len() == n,
                r@.len() == k,
                count_set(taken@, n as int) == k,
                forall|a: int, b: int|
                    0 <= a < n && 0 <= b < n && taken@[a] && !taken@[b] ==> placed_before(g, a, b),
                forall|a: int, b: int| 0 <= a < b < k ==> #[trigger] r@[a].1 >= #[trigger] r@[b].1,
                forall|a: int, x: int|
                    0 <= a < k && 0 <= x < n && !taken@[x] ==> #[trigger] r@[a].1 >= #[trigger] g[x].1.len(),
                forall|q: int|
                    0 <= q < k ==> ranked_entry(
                        g,
                        self.connection_counts(),
                        (#[trigger] r@[q].0@, r@[q].1 as nat),
                        q,
                    ),
            decreases limit - k,
        {
            // the first entry, among those not yet taken, with the most imports
            proof {
                lemma_count_set_bound(taken@, n as int);
            }
            let mut best: usize = 0;
            while best < n && taken[best]
                invariant
                    taken@.len() == n,
                    best <= n,
                    forall|j: int| 0 <= j < best ==> taken@[j],
                    count_set(taken@, n as int) < n,
                decreases n - best,
            {
                best += 1;
            }
            proof {
                if best == n {
                    lemma_count_set_bound(taken@, n as int);
                    assert(count_set(taken@, n as int) == n) by {
                        lemma_all_set(taken@, n as int);
                    }
                }
            }
            let mut j: usize = best + 1;
            while j < n
                invariant
                    g == self.graph_view(),
                    g.len() == n,
                    taken@.len() == n,
                    best < n,
                    !taken@[best as int],
                    best < j <= n,
                    forall|x: int| 0 <= x < j && !taken@[x] && x != best ==> placed_before(g, best as int, x),
                decreases n - j,
            {
                assert(g[j as int].1.len() == self.graph@[j as int].1@.len());
                assert(g[best as int].1.len() == self.graph@[best as int].1@.len());
                if !taken[j] && self.graph[j].1.len() > self.graph[best].1.len() {
                    let ghost old_best = best;
                    best = j;
                    assert forall|x: int| 0 <= x < j + 1 && !taken@[x] && x != best implies placed_before(g, best as int, x) by {
                        if x != old_best {
                            assert(placed_before(g, old_best as int, x));
                        }
                    }
                }
                j += 1;
            }
            proof {
                assert forall|x: int| 0 <= x < n implies (#[trigger] placed_before(g, x, best as int) <==> taken@[x]) by {
                    if taken@[x] {
                        assert(placed_before(g, x, best as int));
                    } else if x != best {
                        assert(placed_before(g, best as int, x));
                    }
                }
                lemma_count_same(g, best as int, taken@, n as int);
                assert(rank(g, best as int) == k);
                lemma_count_set_update(taken@, best as int, n as int);
            }
            let ghost old_taken = taken@;
            taken.set(best, true);
            let entry = (self.graph[best].0.clone(), self.graph[best].1.len());
            let ghost old_r = r@;
            r.push(entry);
            proof {
                assert(g[best as int] == (self.graph@[best as int].0@, crate::text::str_views(self.graph@[best as int].1@)));
                assert(self.connection_counts()[best as int] == (r@[k as int].0@, r@[k as int].1 as nat));
                assert forall|a: int, b: int|
                    0 <= a < n && 0 <= b < n && taken@[a] && !taken@[b] implies placed_before(g, a, b) by {
                    if a != best {
                        assert(old_taken[a]);
                    }
                    assert(!old_taken[b]);
                }
                assert forall|a: int, b: int| 0 <= a < b < k + 1 implies #[trigger] r@[a].1 >= #[trigger] r@[b].1 by {
                    if b < k {
                        assert(r@[a] == old_r[a]);
                        assert(r@[b] == old_r[b]);
                    } else {
                        assert(r@[a] == old_r[a]);
                        assert(!old_taken[best as int]);
                        assert(old_r[a].1 >= g[best as int].1.len());
                    }
                }
                assert forall|a: int, x: int|
                    0 <= a < k + 1 && 0 <= x < n && !taken@[x] implies #[trigger] r@[a].1 >= #[trigger] g[x].1.len() by {
                    assert(!old_taken[x]);
                    if a < k {
                        assert(r@[a] == old_r[a]);
                        assert(old_r[a].1 >= g[x].1.len());
                    } else {
                        assert(x != best);
                        assert(placed_before(g, best as int, x));
                    }
                }
                assert forall|q: int| 0 <= q < k + 1 implies ranked_entry(
                    g,
                    self.connection_counts(),
                    (#[trigger] r@[q].0@, r@[q].1 as nat),
                    q,
                ) by {
                    if q < k {
                        assert(r@[q] == old_r[q]);
                        assert(ranked_entry(g, self.connection_counts(), (old_r[q].0@, old_r[q].1 as nat), q));
                    } else {
                        assert(rank(g, best as int) == q);
                    }
                }
            }
            k += 1;
        }
        proof {
            assert forall|i: int|
                0 <= i < n && #[trigger] rank(g, i) < r@.len() implies (
                r@[rank(g, i) as int].0@,
                r@[rank(g, i) as int].1 as nat,
            ) == self.connection_counts()[i] by {
                let q = rank(g, i) as int;
                assert(ranked_entry(g, self.connection_counts(), (r@[q].0@, r@[q].1 as nat), q));
                let i2 = choose|i2: int| 0 <= i2 < g.len() && rank(g, i2) == q && (r@[q].0@, r@[q].1 as nat) == #[trigger] self.connection_counts()[i2];
                if i2 != i {
                    lemma_rank_injective(g, i, i2);
                }
            }
        }
        r
    }
}

pub proof fn lemma_count_before_grows(g: Seq<(Seq<char>, Seq<Seq<char>>)>, i1: int, i2: int, m: int)
    requires
        0 <= i1 < g.len(),
        0 <= i2 < g.len(),
        placed_before(g, i1, i2),
        m <= g.len(),
    ensures
        count_before(g, i2, m) >= count_before(g, i1, m) + if 0 <= i1 < m {
            1int
        } else {
            0int
        },
    decreases m,
{
    if m > 0 {
        lemma_count_before_grows(g, i1, i2, m - 1);
    }
}

/// Distinct entries have distinct ranks.
pub proof fn lemma_rank_injective(g: Seq<(Seq<char>, Seq<Seq<char>>)>, i1: int, i2: int)
    requires
        0 <= i1 < g.len(),
        0 <= i2 < g.len(),
        i1 != i2,
    ensures
        rank(g, i1) != rank(g, i2),
{
    if placed_before(g, i1, i2) {
        lemma_count_before_grows(g, i1, i2, g.len() as int);
    } else {
        lemma_count_before_grows(g, i2, i1, g.len() as int);
    }
}

pub proof fn lemma_all_set(t: Seq<bool>, m: int)
    requires
        0 <= m <= t.len(),
        forall|j: int| 0 <= j < m ==> t[j],
    ensures
        count_set(t, m) == m,
    decreases m,
{
    if m > 0 {
        lemma_all_set(t, m - 1);
    }
}

} // verus!
