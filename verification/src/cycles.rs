//! Circular dependencies: a depth-first walk of the resolved import graph
//! that reports a cycle each time it meets a file already on its path.
use vstd::prelude::*;
use crate::mapper::{CodeMapper, resolve, lemma_resolve_member, lemma_list_keys, list_entries};
use crate::table::{keys, as_map, lemma_as_map_index, lemma_as_map_dom, find_key};
use crate::text::{str_views, contains_string};

verus! {

/// The views of a list of cycles.
pub open spec fn cycle_views(cs: Seq<Vec<String>>) -> Seq<Seq<Seq<char>>> {
    cs.map_values(|c: Vec<String>| str_views(c@))
}

impl CodeMapper {
    /// The import graph read as a map.
    pub open spec fn graph_map(&self) -> Map<Seq<char>, Seq<Seq<char>>> {
        as_map(self.graph_view())
    }

    /// The file `u` depends on the file `v`: `u` is in the import graph and
    /// one of its imports resolves to `v`.
    pub open spec fn depends(&self, u: Seq<char>, v: Seq<char>) -> bool {
        &&& self.graph_map().contains_key(u)
        &&& exists|j: int|
            0 <= j < self.graph_map()[u].len() && resolve(self.file_keys(), #[trigger] self.graph_map()[u][j])
                == Some(v)
    }

    /// `c` is a circular dependency: distinct files, each depending on the
    /// next, the last depending on the first.
    pub open spec fn is_cycle(&self, c: Seq<Seq<char>>) -> bool {
        &&& c.len() > 0
        &&& c.no_duplicates()
        &&& forall|i: int| 0 <= i < c.len() - 1 ==> #[trigger] self.depends(c[i], c[i + 1])
        &&& self.depends(c.last(), c[0])
    }

    /// The resolved import graph has a circular dependency.
    pub open spec fn has_cycle(&self) -> bool {
        exists|c: Seq<Seq<char>>| #[trigger] self.is_cycle(c)
    }

    /// Every file that the walk may reach: those of the graph and those of
    /// the file table.
    pub open spec fn universe(&self) -> Seq<Seq<char>> {
        keys(self.graph_view()) + self.file_keys()
    }

    /// `s` is a path of distinct files, each depending on the next.
    pub open spec fn is_path(&self, s: Seq<Seq<char>>) -> bool {
        &&& s.no_duplicates()
        &&& forall|i: int| 0 <= i < s.len() - 1 ==> #[trigger] self.depends(s[i], s[i + 1])
    }

    /// Each file of `done` depends only on files that come before it in `done`.
    pub open spec fn finished_in_order(&self, done: Seq<Seq<char>>) -> bool {
        forall|i: int, v: Seq<char>|
            0 <= i < done.len() && #[trigger] self.depends(done[i], v) ==> exists|j: int|
                0 <= j < i && #[trigger] done[j] == v
    }

    /// Every reported cycle is a cycle, and none is reported twice.
    pub open spec fn cycles_sound(&self, cs: Seq<Seq<Seq<char>>>) -> bool {
        &&& forall|k: int| 0 <= k < cs.len() ==> #[trigger] self.is_cycle(cs[k])
        &&& cs.no_duplicates()
    }

    /// What holds between two steps of the walk: `visited` is the path
    /// `stack` together with the finished files `done`; the finished files,
    /// while no cycle has been seen, are in an order where each depends only
    /// on earlier ones.
    pub open spec fn walk_state(
        &self,
        visited: Seq<Seq<char>>,
        stack: Seq<Seq<char>>,
        done: Seq<Seq<char>>,
        cs: Seq<Seq<Seq<char>>>,
    ) -> bool {
        &&& self.is_path(stack)
        &&& done.no_duplicates()
        &&& forall|x: Seq<char>| #[trigger] visited.contains(x) <==> (stack.contains(x) || done.contains(x))
        &&& forall|x: Seq<char>| #[trigger] stack.contains(x) ==> !done.contains(x)
        &&& forall|x: Seq<char>| #[trigger] visited.contains(x) ==> self.universe().contains(x)
        &&& self.cycles_sound(cs)
        &&& cs.len() == 0 ==> self.finished_in_order(done)
    }
}

impl CodeMapper {
    /// The walk may step to `current`: the walk state holds and `current`
    /// is a dependency of the file at the top of the path.
    pub open spec fn step_ready(
        &self,
        visited: Seq<Seq<char>>,
        stack: Seq<Seq<char>>,
        done: Seq<Seq<char>>,
        cs: Seq<Seq<Seq<char>>>,
        current: Seq<char>,
    ) -> bool {
        &&& self.walk_state(visited, stack, done, cs)
        &&& stack.len() > 0 ==> self.depends(stack.last(), current)
    }
}

/// The number of entries of `u` that are not in `v`.
pub open spec fn unvisited(u: Seq<Seq<char>>, v: Seq<Seq<char>>) -> nat
    decreases u.len(),
{
    if u.len() == 0 {
        0
    } else {
        unvisited(u.drop_last(), v) + if v.contains(u.last()) {
            0nat
        } else {
            1nat
        }
    }
}

pub proof fn lemma_unvisited_shrinks(u: Seq<Seq<char>>, v1: Seq<Seq<char>>, v2: Seq<Seq<char>>, c: Seq<char>)
    requires
        forall|x: Seq<char>| v1.contains(x) ==> v2.contains(x),
    ensures
        unvisited(u, v2) <= unvisited(u, v1),
        u.contains(c) && !v1.contains(c) && v2.contains(c) ==> unvisited(u, v2) < unvisited(u, v1),
    decreases u.len(),
{
    if u.len() > 0 {
        lemma_unvisited_shrinks(u.drop_last(), v1, v2, c);
        if u.contains(c) && !v1.contains(c) && v2.contains(c) {
            if u.last() != c {
                let i = choose|i: int| 0 <= i < u.len() && u[i] == c;
                assert(u.drop_last()[i] == c);
            }
        }
    }
}


/// `cs` with the cycle `c` added at the end unless already present.
pub open spec fn add_cycle(cs: Seq<Seq<Seq<char>>>, c: Seq<Seq<char>>) -> Seq<Seq<Seq<char>>> {
    if cs.contains(c) {
        cs
    } else {
        cs.push(c)
    }
}

impl CodeMapper {
    /// The import names of the file `cur`; none for a file outside the graph.
    pub open spec fn imports_of(&self, cur: Seq<char>) -> Seq<Seq<char>> {
        if self.graph_map().contains_key(cur) {
            self.graph_map()[cur]
        } else {
            Seq::empty()
        }
    }

    /// The depth-first walk from `cur`, given the files visited so far, the
    /// path `stack` that leads to `cur` and the cycles found so far: the
    /// visited files and the cycles after the walk.  A file on the path
    /// closes the cycle from its first place on the path to the path's end; a
    /// visited file is not entered; a new file is visited, then the targets
    /// of its imports are walked in order.  (`fuel` bounds the depth; the
    /// analyser always gives enough.)
    pub open spec fn walk(
        &self,
        fuel: nat,
        cur: Seq<char>,
        vis: Seq<Seq<char>>,
        stack: Seq<Seq<char>>,
        cs: Seq<Seq<Seq<char>>>,
    ) -> (Seq<Seq<char>>, Seq<Seq<Seq<char>>>)
        decreases fuel, 0nat, 0int,
    {
        if stack.contains(cur) {
            (vis, add_cycle(cs, stack.subrange(stack.index_of_first(cur)->0, stack.len() as int)))
        } else if vis.contains(cur) {
            (vis, cs)
        } else if fuel == 0 {
            (vis.push(cur), cs)
        } else {
            self.walk_imports(
                (fuel - 1) as nat,
                cur,
                self.imports_of(cur),
                0,
                vis.push(cur),
                stack.push(cur),
                cs,
            )
        }
    }

    /// The walk through the targets of the imports `imps[j..]` of `cur`.
    pub open spec fn walk_imports(
        &self,
        fuel: nat,
        cur: Seq<char>,
        imps: Seq<Seq<char>>,
        j: nat,
        vis: Seq<Seq<char>>,
        stack: Seq<Seq<char>>,
        cs: Seq<Seq<Seq<char>>>,
    ) -> (Seq<Seq<char>>, Seq<Seq<Seq<char>>>)
        decreases fuel, 1nat, imps.len() - j,
    {
        if j >= imps.len() {
            (vis, cs)
        } else {
            match resolve(self.file_keys(), imps[j as int]) {
                Some(t) => {
                    let r = self.walk(fuel, t, vis, stack, cs);
                    self.walk_imports(fuel, cur, imps, j + 1, r.0, stack, r.1)
                },
                None => self.walk_imports(fuel, cur, imps, j + 1, vis, stack, cs),
            }
        }
    }

    /// The walk from every file of the import graph in graph order, from
    /// entry `i` on, skipping files already visited: the cycles found.
    pub open spec fn walk_all(&self, i: nat, vis: Seq<Seq<char>>, cs: Seq<Seq<Seq<char>>>) -> Seq<Seq<Seq<char>>>
        decreases self.graph@.len() - i,
    {
        if i >= self.graph@.len() {
            cs
        } else {
            let k = keys(self.graph_view())[i as int];
            if vis.contains(k) {
                self.walk_all(i + 1, vis, cs)
            } else {
                let r = self.walk(self.universe().len(), k, vis, Seq::empty(), cs);
                self.walk_all(i + 1, r.0, r.1)
            }
        }
    }

    /// The cycles that `detect_circular_deps` reports.
    pub open spec fn spec_circular_deps(&self) -> Seq<Seq<Seq<char>>> {
        self.walk_all(0, Seq::empty(), Seq::empty())
    }
}

pub proof fn lemma_unvisited_bound(u: Seq<Seq<char>>, v: Seq<Seq<char>>)
    ensures
        unvisited(u, v) <= u.len(),
    decreases u.len(),
{
    if u.len() > 0 {
        lemma_unvisited_bound(u.drop_last(), v);
    }
}

/// Where `s` first stands in `v`.
fn position_of(v: &Vec<String>, s: &String) -> (r: Option<usize>)
    ensures
        r matches Some(i) ==> i < v@.len() && v@[i as int]@ == s@ && forall|j: int|
            0 <= j < i ==> v@[j]@ != s@,
        r is None ==> !str_views(v@).contains(s@),
{
    let mut i: usize = 0;
    while i < v.len()
        invariant
            i <= v@.len(),
            forall|j: int| 0 <= j < i ==> v@[j]@ != s@,
        decreases v@.len() - i,
    {
        if v[i] == *s {
            return Some(i);
        }
        i += 1;
    }
    assert forall|j: int| 0 <= j < str_views(v@).len() implies str_views(v@)[j] != s@ by {
        assert(str_views(v@)[j] == v@[j]@);
    }
    None
}

/// The strings `v[from..]`.
fn tail_from(v: &Vec<String>, from: usize) -> (r: Vec<String>)
    requires
        from <= v@.len(),
    ensures
        str_views(r@) == str_views(v@).subrange(from as int, v@.len() as int),
{
    let mut r: Vec<String> = Vec::new();
    let mut i = from;
    while i < v.len()
        invariant
            from <= i <= v@.len(),
            str_views(r@) == str_views(v@).subrange(from as int, i as int),
        decreases v@.len() - i,
    {
        let s = v[i].clone();
        let ghost old_r = r@;
        r.push(s);
        assert(str_views(r@) =~= str_views(old_r).push(s@));
        assert(str_views(r@) =~= str_views(v@).subrange(from as int, i + 1));
        i += 1;
    }
    r
}

/// Whether `a` and `b` hold equal strings in the same order.
fn same_strings(a: &Vec<String>, b: &Vec<String>) -> (r: bool)
    ensures
        r == (str_views(a@) == str_views(b@)),
{
    if a.len() != b.len() {
        return false;
    }
    let mut i: usize = 0;
    while i < a.len()
        invariant
            a@.len() == b@.len(),
            i <= a@.len(),
            forall|j: int| 0 <= j < i ==> a@[j]@ == b@[j]@,
        decreases a@.len() - i,
    {
        if a[i] != b[i] {
            assert(str_views(a@)[i as int] != str_views(b@)[i as int]);
            return false;
        }
        i += 1;
    }
    assert(str_views(a@) =~= str_views(b@));
    true
}

/// Whether `cs` holds the cycle `c`.
fn holds_cycle(cs: &Vec<Vec<String>>, c: &Vec<String>) -> (r: bool)
    ensures
        r == cycle_views(cs@).contains(str_views(c@)),
{
    let mut i: usize = 0;
    while i < cs.len()
        invariant
            i <= cs@.len(),
            forall|j: int| 0 <= j < i ==> str_views(cs@[j]@) != str_views(c@),
        decreases cs@.len() - i,
    {
        if same_strings(&cs[i], c) {
            assert(cycle_views(cs@)[i as int] == str_views(c@));
            return true;
        }
        i += 1;
    }
    assert forall|j: int| 0 <= j < cycle_views(cs@).len() implies cycle_views(cs@)[j] != str_views(c@) by {
        assert(cycle_views(cs@)[j] == str_views(cs@[j]@));
    }
    false
}


/// An edge between finished files goes to an earlier one.
pub proof fn lemma_edge_goes_back(m: &CodeMapper, done: Seq<Seq<char>>, u: Seq<char>, v: Seq<char>)
    requires
        m.finished_in_order(done),
        done.no_duplicates(),
        done.contains(u),
        m.depends(u, v),
    ensures
        done.contains(v),
        done.index_of(v) < done.index_of(u),
        0 <= done.index_of(v),
{
    let i = done.index_of(u);
    assert(0 <= i < done.len() && done[i] == u);
    assert(m.depends(done[i], v));
    let j = choose|j: int| 0 <= j < i && #[trigger] done[j] == v;
    assert(done.contains(v));
    let k = done.index_of(v);
    assert(0 <= k < done.len() && done[k] == v);
    assert(k == j);
}

/// Along a cycle whose files are all finished, positions in `done` fall by
/// at least one per step.
pub proof fn lemma_cycle_positions(m: &CodeMapper, done: Seq<Seq<char>>, c: Seq<Seq<char>>, k: int)
    requires
        m.finished_in_order(done),
        done.no_duplicates(),
        forall|u: Seq<char>| #[trigger] m.graph_map().contains_key(u) ==> done.contains(u),
        m.is_cycle(c),
        0 <= k < c.len(),
    ensures
        done.contains(c[k]),
        done.index_of(c[k]) + k <= done.index_of(c[0]),
    decreases k,
{
    if k == 0 {
        assert(m.depends(c.last(), c[0]));
        if c.len() > 1 {
            assert(m.depends(c[0], c[1]));
        }
        assert(m.graph_map().contains_key(c[0]));
    } else {
        lemma_cycle_positions(m, done, c, k - 1);
        assert(m.depends(c[k - 1], c[k]));
        lemma_edge_goes_back(m, done, c[k - 1], c[k]);
    }
}

/// A graph whose files can all be finished in an order where each depends
/// only on earlier ones has no cycle.
pub proof fn lemma_finished_acyclic(m: &CodeMapper, done: Seq<Seq<char>>, c: Seq<Seq<char>>)
    requires
        m.finished_in_order(done),
        done.no_duplicates(),
        forall|u: Seq<char>| #[trigger] m.graph_map().contains_key(u) ==> done.contains(u),
    ensures
        !m.is_cycle(c),
{
    if m.is_cycle(c) {
        let n = c.len() - 1;
        lemma_cycle_positions(m, done, c, n);
        assert(c.last() == c[n]);
        lemma_edge_goes_back(m, done, c.last(), c[0]);
    }
}

impl CodeMapper {
    /// Walks the import graph depth-first from `current`: a file already on
    /// the path `stack` closes a cycle, which is reported unless it already
    /// is; a visited file is not entered again.
    fn dfs_cycle(
        &self,
        current: &String,
        visited: &mut Vec<String>,
        stack: &mut Vec<String>,
        cycles: &mut Vec<Vec<String>>,
        Ghost(done): Ghost<Seq<Seq<char>>>,
        Ghost(fuel): Ghost<nat>,
    ) -> (r: Ghost<Seq<Seq<char>>>)
        requires
            self.wf(),
            self.universe().contains(current@),
            fuel >= unvisited(self.universe(), str_views(old(visited)@)),
        ensures
            str_views(final(stack)@) == str_views(old(stack)@),
            forall|x: Seq<char>| #[trigger]
                str_views(old(visited)@).contains(x) ==> str_views(final(visited)@).contains(x),
            done.is_prefix_of(r@),
            cycle_views(old(cycles)@).is_prefix_of(cycle_views(final(cycles)@)),
            cycle_views(old(cycles)@).no_duplicates() ==> cycle_views(final(cycles)@).no_duplicates(),
            self.step_ready(
                str_views(old(visited)@),
                str_views(old(stack)@),
                done,
                cycle_views(old(cycles)@),
                current@,
            ) ==> {
                &&& self.walk_state(
                    str_views(final(visited)@),
                    str_views(final(stack)@),
                    r@,
                    cycle_views(final(cycles)@),
                )
                &&& (cycle_views(final(cycles)@).len() == 0 ==> r@.contains(current@))
                &&& str_views(final(visited)@).contains(current@)
            },
            (str_views(final(visited)@), cycle_views(final(cycles)@)) == self.walk(
                fuel,
                current@,
                str_views(old(visited)@),
                str_views(old(stack)@),
                cycle_views(old(cycles)@),
            ),
        decreases fuel,
    {
        let ghost vv0 = str_views(visited@);
        let ghost sv0 = str_views(stack@);
        let ghost cs0 = cycle_views(cycles@);
        let ghost fk = self.file_keys();
        let ghost ok = self.step_ready(vv0, sv0, done, cs0, current@);
        match position_of(stack, current) {
            Some(pos) => {
                let cycle = tail_from(stack, pos);
                let ghost c = str_views(cycle@);
                proof {
                    assert(sv0[pos as int] == current@);
                    assert(sv0.contains(current@));
                    sv0.index_of_first_ensures(current@);
                    let ix = sv0.index_of_first(current@)->0;
                    assert(0 <= ix < sv0.len() && sv0[ix] == current@);
                    if ix < pos {
                        assert(sv0[ix] == stack@[ix]@);
                    }
                    assert(pos <= ix);
                    assert(ix == pos);
                    assert(c =~= sv0.subrange(ix, sv0.len() as int));
                    assert(c.len() > 0);
                    if ok {
                        assert(c.no_duplicates()) by {
                            assert forall|a: int, b: int| 0 <= a < c.len() && 0 <= b < c.len() && a != b implies c[a] != c[b] by {
                                assert(c[a] == sv0[a + pos]);
                                assert(c[b] == sv0[b + pos]);
                            }
                        }
                        assert forall|i: int| 0 <= i < c.len() - 1 implies #[trigger] self.depends(c[i], c[i + 1]) by {
                            assert(c[i] == sv0[i + pos]);
                            assert(c[i + 1] == sv0[i + pos + 1]);
                            assert(self.depends(sv0[i + pos], sv0[i + pos + 1]));
                        }
                        assert(c.last() == sv0.last());
                        assert(c[0] == current@);
                        assert(self.is_cycle(c));
                    }
                }
                if !holds_cycle(cycles, &cycle) {
                    cycles.push(cycle);
                    proof {
                        let cs = cycle_views(cycles@);
                        assert(cs =~= cs0.push(c));
                        if ok {
                            assert forall|k: int| 0 <= k < cs.len() implies #[trigger] self.is_cycle(cs[k]) by {
                                if k < cs0.len() {
                                    assert(cs[k] == cs0[k]);
                                }
                            }
                        }
                        if cs0.no_duplicates() {
                            assert forall|a: int, b: int| 0 <= a < cs.len() && 0 <= b < cs.len() && a != b implies cs[a] != cs[b] by {
                                if a < cs0.len() && b < cs0.len() {
                                    assert(cs[a] == cs0[a]);
                                    assert(cs[b] == cs0[b]);
                                } else if a < cs0.len() {
                                    assert(cs[a] == cs0[a]);
                                } else if b < cs0.len() {
                                    assert(cs[b] == cs0[b]);
                                }
                            }
                            assert(cs.no_duplicates());
                        }
                        assert(cs0.is_prefix_of(cs));
                    }
                } else {
                    assert(cs0.len() > 0);
                    assert(cs0.is_prefix_of(cycle_views(cycles@)));
                }
                assert(sv0.contains(current@));
                assert(done.is_prefix_of(done));
                assert(cycle_views(cycles@) == add_cycle(cs0, c));
                return Ghost(done);
            },
            None => {},
        }
        if contains_string(visited, current) {
            assert(ok ==> done.contains(current@));
            assert(!sv0.contains(current@));
            assert(done.is_prefix_of(done));
            assert(cs0.is_prefix_of(cs0));
            return Ghost(done);
        }
        let ghost sv1 = sv0.push(current@);
        let ghost vv1 = vv0.push(current@);
        proof {
            assert(vv1[vv0.len() as int] == current@);
            assert forall|x: Seq<char>| vv0.contains(x) implies vv1.contains(x) by {
                let k = choose|k: int| 0 <= k < vv0.len() && vv0[k] == x;
                assert(vv1[k] == x);
            }
            lemma_unvisited_shrinks(self.universe(), vv0, vv1, current@);
            assert(fuel > 0);
            assert(!sv0.contains(current@));
        }
        visited.push(current.clone());
        stack.push(current.clone());
        proof {
            assert(str_views(visited@) =~= vv0.push(current@));
            assert(str_views(stack@) =~= sv1);
            if ok {
                assert(self.is_path(sv1)) by {
                    assert forall|a: int, b: int| 0 <= a < sv1.len() && 0 <= b < sv1.len() && a != b implies sv1[a] != sv1[b] by {
                        if a < sv0.len() && b < sv0.len() {
                            assert(sv1[a] == sv0[a]);
                            assert(sv1[b] == sv0[b]);
                        } else if a < sv0.len() {
                            assert(sv1[a] == sv0[a]);
                            assert(vv0.contains(sv0[a]));
                        } else if b < sv0.len() {
                            assert(sv1[b] == sv0[b]);
                            assert(vv0.contains(sv0[b]));
                        }
                    }
                    assert forall|i: int| 0 <= i < sv1.len() - 1 implies #[trigger] self.depends(sv1[i], sv1[i + 1]) by {
                        if i < sv0.len() - 1 {
                            assert(sv1[i] == sv0[i]);
                            assert(sv1[i + 1] == sv0[i + 1]);
                        } else {
                            assert(sv1[i] == sv0.last());
                            assert(sv1[i + 1] == current@);
                        }
                    }
                }
                let vv1 = str_views(visited@);
                assert forall|x: Seq<char>| #[trigger] vv1.contains(x) <==> (sv1.contains(x) || done.contains(x)) by {
                    if vv1.contains(x) && x != current@ {
                        let k = choose|k: int| 0 <= k < vv1.len() && vv1[k] == x;
                        assert(vv0[k] == x);
                    }
                    if vv0.contains(x) {
                        let k = choose|k: int| 0 <= k < vv0.len() && vv0[k] == x;
                        assert(vv1[k] == x);
                    }
                    if sv1.contains(x) && x != current@ {
                        let k = choose|k: int| 0 <= k < sv1.len() && sv1[k] == x;
                        assert(sv0[k] == x);
                    }
                    if sv0.contains(x) {
                        let k = choose|k: int| 0 <= k < sv0.len() && sv0[k] == x;
                        assert(sv1[k] == x);
                    }
                    assert(vv1[vv0.len() as int] == current@);
                    assert(sv1[sv0.len() as int] == current@);
                }
                assert forall|x: Seq<char>| #[trigger] sv1.contains(x) implies !done.contains(x) by {
                    assert(!vv0.contains(current@));
                    if x != current@ {
                        let k = choose|k: int| 0 <= k < sv1.len() && sv1[k] == x;
                        assert(sv0[k] == x);
                        assert(sv0.contains(x));
                    }
                }
                assert forall|x: Seq<char>| #[trigger] vv1.contains(x) implies self.universe().contains(x) by {
                    assert(self.universe().contains(current@));
                    if x != current@ {
                        let k = choose|k: int| 0 <= k < vv1.len() && vv1[k] == x;
                        assert(vv0[k] == x);
                        assert(vv0.contains(x));
                    }
                }
            }
            assert forall|x: Seq<char>| #[trigger] vv0.contains(x) implies vv1.contains(x) by {
                let k = choose|k: int| 0 <= k < vv0.len() && vv0[k] == x;
                assert(vv1[k] == x);
            }
            assert(vv1[vv0.len() as int] == current@);
        }
        let ghost mut dn = done;
        proof {
            lemma_list_keys(self.graph@);
            lemma_as_map_dom(self.graph_view());
        }
        match find_key(&self.graph, current) {
            Some(gi) => {
                let imports = &self.graph[gi].1;
                proof {
                    lemma_as_map_index(self.graph_view(), gi as int);
                    assert(self.graph_view()[gi as int] == (self.graph@[gi as int].0@, str_views(imports@)));
                }
                let mut j: usize = 0;
                assert(done.is_prefix_of(dn));
                assert(cs0.is_prefix_of(cycle_views(cycles@)));
                assert(self.imports_of(current@) == str_views(imports@));
                while j < imports.len()
                    invariant
                        self.wf(),
                        vv0 == str_views(old(visited)@),
                        fuel > 0,
                        fuel >= unvisited(self.universe(), vv0),
                        vv1 == vv0.push(current@),
                        self.walk_imports((fuel - 1) as nat, current@, str_views(imports@), 0, vv1, sv1, cs0)
                            == self.walk_imports(
                            (fuel - 1) as nat,
                            current@,
                            str_views(imports@),
                            j as nat,
                            str_views(visited@),
                            sv1,
                            cycle_views(cycles@),
                        ),
                        fk == self.file_keys(),
                        self.graph_map().contains_key(current@),
                        self.graph_map()[current@] == str_views(imports@),
                        j <= imports@.len(),
                        sv1 == sv0.push(current@),
                        str_views(stack@) == sv1,
                        ok ==> self.walk_state(str_views(visited@), sv1, dn, cycle_views(cycles@)),
                        forall|x: Seq<char>| #[trigger] vv0.contains(x) ==> str_views(visited@).contains(x),
                        str_views(visited@).contains(current@),
                        !vv0.contains(current@),
                        self.universe().contains(current@),
                        done.is_prefix_of(dn),
                        cs0.is_prefix_of(cycle_views(cycles@)),
                        cs0.no_duplicates() ==> cycle_views(cycles@).no_duplicates(),
                        ok && cycle_views(cycles@).len() == 0 ==> forall|jj: int|
                            0 <= jj < j && #[trigger] resolve(fk, imports@[jj]@) is Some ==> dn.contains(
                                resolve(fk, imports@[jj]@)->0,
                            ),
                    decreases imports@.len() - j,
                {
                    let ghost vis_j = str_views(visited@);
                    let ghost cs_j = cycle_views(cycles@);
                    assert(str_views(imports@)[j as int] == imports@[j as int]@);
                    match self.find_file_by_import(imports[j].as_str()) {
                        Some(target) => {
                            let ghost dn_before = dn;
                            let ghost cs_before = cycle_views(cycles@);
                            proof {
                                lemma_resolve_member(fk, imports@[j as int]@);
                                let k = choose|k: int| 0 <= k < fk.len() && fk[k] == target@;
                                assert(self.universe()[keys(self.graph_view()).len() + k] == target@);
                                assert(self.graph_map()[current@][j as int] == imports@[j as int]@);
                                assert(self.depends(current@, target@));
                                assert(sv1.last() == current@);
                                lemma_unvisited_shrinks(self.universe(), vv0, str_views(visited@), current@);
                                assert(unvisited(self.universe(), str_views(visited@)) < unvisited(self.universe(), vv0));
                            }
                            let r = self.dfs_cycle(
                                &target,
                                visited,
                                stack,
                                cycles,
                                Ghost(dn),
                                Ghost((fuel - 1) as nat),
                            );
                            proof {
                                dn = r@;
                                assert forall|x: Seq<char>| #[trigger] vv0.contains(x) implies str_views(visited@).contains(x) by {
                                }
                                assert(done.is_prefix_of(dn)) by {
                                    assert forall|k: int| 0 <= k < done.len() implies done[k] == dn[k] by {
                                        assert(done[k] == dn_before[k]);
                                    }
                                }
                                assert(cs0.is_prefix_of(cycle_views(cycles@))) by {
                                    assert forall|k: int| 0 <= k < cs0.len() implies cs0[k] == cycle_views(cycles@)[k] by {
                                        assert(cs0[k] == cs_before[k]);
                                    }
                                }
                                if ok && cycle_views(cycles@).len() == 0 {
                                    assert(cs_before.len() == 0);
                                    assert forall|jj: int|
                                        0 <= jj < j + 1 && #[trigger] resolve(fk, imports@[jj]@) is Some implies dn.contains(
                                            resolve(fk, imports@[jj]@)->0,
                                        ) by {
                                        if jj < j {
                                            let y = resolve(fk, imports@[jj]@)->0;
                                            assert(dn_before.contains(y));
                                            let k = choose|k: int| 0 <= k < dn_before.len() && dn_before[k] == y;
                                            assert(dn[k] == y);
                                        }
                                    }
                                }
                            }
                        },
                        None => {},
                    }
                    j += 1;
                }
            },
            None => {
                assert(!self.graph_map().contains_key(current@)) by {
                    if keys(self.graph_view()).contains(current@) {
                        let k = choose|k: int| 0 <= k < keys(self.graph_view()).len() && keys(self.graph_view())[k] == current@;
                        assert(self.graph@[k].0@ == current@);
                    }
                }
            },
        }
        let ghost vv2 = str_views(visited@);
        let ghost cs2 = cycle_views(cycles@);
        let ghost dn2 = dn;
        let popped = stack.pop();
        proof {
            assert(str_views(stack@) =~= sv1.drop_last());
            assert(sv1.drop_last() =~= sv0);
            let dn3 = dn2.push(current@);
            if ok {
                assert(!dn2.contains(current@)) by {
                    assert(sv1.contains(current@)) by {
                        assert(sv1[sv0.len() as int] == current@);
                    }
                }
                assert(dn3.no_duplicates()) by {
                    assert forall|a: int, b: int| 0 <= a < dn3.len() && 0 <= b < dn3.len() && a != b implies dn3[a] != dn3[b] by {
                        if a < dn2.len() && b < dn2.len() {
                            assert(dn3[a] == dn2[a]);
                            assert(dn3[b] == dn2[b]);
                        } else if a < dn2.len() {
                            assert(dn3[a] == dn2[a]);
                            assert(dn2.contains(dn2[a]));
                        } else if b < dn2.len() {
                            assert(dn3[b] == dn2[b]);
                            assert(dn2.contains(dn2[b]));
                        }
                    }
                }
                assert forall|x: Seq<char>| #[trigger] vv2.contains(x) <==> (sv0.contains(x) || dn3.contains(x)) by {
                    if sv1.contains(x) && x != current@ {
                        let k = choose|k: int| 0 <= k < sv1.len() && sv1[k] == x;
                        assert(sv0[k] == x);
                    }
                    if sv0.contains(x) {
                        let k = choose|k: int| 0 <= k < sv0.len() && sv0[k] == x;
                        assert(sv1[k] == x);
                    }
                    if dn3.contains(x) && x != current@ {
                        let k = choose|k: int| 0 <= k < dn3.len() && dn3[k] == x;
                        assert(dn2[k] == x);
                    }
                    if dn2.contains(x) {
                        let k = choose|k: int| 0 <= k < dn2.len() && dn2[k] == x;
                        assert(dn3[k] == x);
                    }
                    assert(dn3[dn2.len() as int] == current@);
                    assert(sv1[sv0.len() as int] == current@);
                }
                assert forall|x: Seq<char>| #[trigger] sv0.contains(x) implies !dn3.contains(x) by {
                    let k = choose|k: int| 0 <= k < sv0.len() && sv0[k] == x;
                    assert(sv1[k] == x);
                    assert(vv0.contains(x));
                    if dn3.contains(x) {
                        let k2 = choose|k2: int| 0 <= k2 < dn3.len() && dn3[k2] == x;
                        if k2 < dn2.len() {
                            assert(dn2[k2] == x);
                        }
                    }
                }
                if cs2.len() == 0 {
                    assert(self.finished_in_order(dn3)) by {
                        assert forall|i: int, v: Seq<char>|
                            0 <= i < dn3.len() && #[trigger] self.depends(dn3[i], v) implies exists|j: int|
                                0 <= j < i && #[trigger] dn3[j] == v by {
                            if i < dn2.len() {
                                assert(dn3[i] == dn2[i]);
                                assert(self.depends(dn2[i], v));
                                let j = choose|j: int| 0 <= j < i && #[trigger] dn2[j] == v;
                                assert(dn3[j] == v);
                            } else {
                                assert(dn3[i] == current@);
                                let jj = choose|jj: int|
                                    0 <= jj < self.graph_map()[current@].len() && resolve(
                                        fk,
                                        #[trigger] self.graph_map()[current@][jj],
                                    ) == Some(v);
                                assert(dn2.contains(v));
                                let k = choose|k: int| 0 <= k < dn2.len() && dn2[k] == v;
                                assert(dn3[k] == v);
                            }
                        }
                    }
                }
            }
            assert(done.is_prefix_of(dn3)) by {
                assert forall|k: int| 0 <= k < done.len() implies done[k] == dn3[k] by {
                    assert(done[k] == dn2[k]);
                }
            }
            assert(dn3[dn2.len() as int] == current@);
            dn = dn3;
        }
        Ghost(dn)
    }
}


impl CodeMapper {
    /// The circular dependencies of the import graph, found by a depth-first
    /// walk from every file of the graph in graph order.  Each reported
    /// cycle is a cycle, none is reported twice, and none is reported
    /// exactly when the graph has no cycle.
    pub fn detect_circular_deps(&self) -> (r: Vec<Vec<String>>)
        requires
            self.wf(),
        ensures
            cycle_views(r@) == self.spec_circular_deps(),
            self.cycles_sound(cycle_views(r@)),
            cycle_views(r@).len() == 0 <==> !self.has_cycle(),
    {
        let mut cycles: Vec<Vec<String>> = Vec::new();
        let mut visited: Vec<String> = Vec::new();
        let mut stack: Vec<String> = Vec::new();
        let ghost mut done: Seq<Seq<char>> = Seq::empty();
        let ghost gk = keys(self.graph_view());
        proof {
            lemma_list_keys(self.graph@);
            assert(str_views(visited@) =~= Seq::<Seq<char>>::empty());
            assert(str_views(stack@) =~= Seq::<Seq<char>>::empty());
            assert(cycle_views(cycles@) =~= Seq::<Seq<Seq<char>>>::empty());
        }
        let mut i: usize = 0;
        while i < self.graph.len()
            invariant
                self.wf(),
                gk == keys(self.graph_view()),
                gk.len() == self.graph@.len(),
                forall|a: int| 0 <= a < self.graph@.len() ==> #[trigger] gk[a] == self.graph@[a].0@,
                i <= self.graph@.len(),
                str_views(stack@) == Seq::<Seq<char>>::empty(),
                self.walk_state(str_views(visited@), str_views(stack@), done, cycle_views(cycles@)),
                self.spec_circular_deps() == self.walk_all(
                    i as nat,
                    str_views(visited@),
                    cycle_views(cycles@),
                ),
                forall|a: int| 0 <= a < i ==> str_views(visited@).contains(#[trigger] gk[a]),
            decreases self.graph@.len() - i,
        {
            let file = &self.graph[i].0;
            let ghost vv_before = str_views(visited@);
            assert(gk[i as int] == file@);
            if !contains_string(&visited, file) {
                proof {
                    assert(self.universe()[i as int] == file@);
                    lemma_unvisited_bound(self.universe(), str_views(visited@));
                }
                let r = self.dfs_cycle(
                    file,
                    &mut visited,
                    &mut stack,
                    &mut cycles,
                    Ghost(done),
                    Ghost(self.universe().len()),
                );
                proof {
                    done = r@;
                    assert forall|a: int| 0 <= a < i + 1 implies str_views(visited@).contains(#[trigger] gk[a]) by {
                        if a < i {
                            assert(vv_before.contains(gk[a]));
                        }
                    }
                }
            } else {
                assert forall|a: int| 0 <= a < i + 1 implies str_views(visited@).contains(#[trigger] gk[a]) by {
                }
            }
            i += 1;
        }
        proof {
            let cs = cycle_views(cycles@);
            let vv = str_views(visited@);
            if cs.len() == 0 {
                lemma_as_map_dom(self.graph_view());
                assert forall|u: Seq<char>| #[trigger] self.graph_map().contains_key(u) implies done.contains(u) by {
                    assert(gk.contains(u));
                    let a = choose|a: int| 0 <= a < gk.len() && gk[a] == u;
                    assert(vv.contains(gk[a]));
                    assert(!str_views(stack@).contains(u));
                }
                assert forall|c: Seq<Seq<char>>| !#[trigger] self.is_cycle(c) by {
                    lemma_finished_acyclic(self, done, c);
                }
            } else {
                assert(self.is_cycle(cs[0]));
            }
        }
        cycles
    }
}

} // verus!
