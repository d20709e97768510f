//! The analyser's state: the files read, the import graph between them, the
//! reverse graph (who imports whom) and the call graph, with the analyses
//! that read them.
use vstd::prelude::*;
use crate::model::{FileNode, FileView, FunctionNode, FunctionView, fn_views};
use crate::table::{keys, as_map, lemma_as_map_push, lemma_as_map_dom, lemma_as_map_index, lemma_as_map_update, find_key};
use crate::text::{str_views, chars_of, same_chars, ends_with};
use crate::unicode::{path_stem, file_stem};

verus! {

/// The analyser.  Each table holds at most one entry per key, in the order
/// in which keys were first entered.
#[derive(Debug, Clone)]
pub struct CodeMapper {
    /// path -> analysed file
    pub files: Vec<(String, FileNode)>,
    /// path -> names it imports
    pub graph: Vec<(String, Vec<String>)>,
    /// path -> paths of the files that import it
    pub reverse_graph: Vec<(String, Vec<String>)>,
    /// `path::function` -> `path::function` of the functions it calls
    pub call_graph: Vec<(String, Vec<String>)>,
}

/// The view of a table of files.
pub open spec fn file_entries(t: Seq<(String, FileNode)>) -> Seq<(Seq<char>, FileView)> {
    t.map_values(|e: (String, FileNode)| (e.0@, e.1@))
}

/// The view of a table of string lists.
pub open spec fn list_entries(t: Seq<(String, Vec<String>)>) -> Seq<(Seq<char>, Seq<Seq<char>>)> {
    t.map_values(|e: (String, Vec<String>)| (e.0@, str_views(e.1@)))
}

/// Whether no two entries of `t` have equal keys.
pub open spec fn distinct_keys<V>(t: Seq<(String, V)>) -> bool {
    forall|a: int, b: int| 0 <= a < t.len() && 0 <= b < t.len() && a != b ==> t[a].0@ != t[b].0@
}

pub proof fn lemma_file_keys(t: Seq<(String, FileNode)>)
    requires
        distinct_keys(t),
    ensures
        keys(file_entries(t)).no_duplicates(),
        keys(file_entries(t)).len() == t.len(),
        forall|i: int| 0 <= i < t.len() ==> #[trigger] keys(file_entries(t))[i] == t[i].0@,
{
    assert forall|i: int| 0 <= i < t.len() implies #[trigger] keys(file_entries(t))[i] == t[i].0@ by {
        assert(file_entries(t)[i] == (t[i].0@, t[i].1@));
    }
}

pub proof fn lemma_list_keys(t: Seq<(String, Vec<String>)>)
    requires
        distinct_keys(t),
    ensures
        keys(list_entries(t)).no_duplicates(),
        keys(list_entries(t)).len() == t.len(),
        forall|i: int| 0 <= i < t.len() ==> #[trigger] keys(list_entries(t))[i] == t[i].0@,
{
    assert forall|i: int| 0 <= i < t.len() implies #[trigger] keys(list_entries(t))[i] == t[i].0@ by {
        assert(list_entries(t)[i] == (t[i].0@, str_views(t[i].1@)));
    }
}

/// Sets the entry of key `k` to `v`: in place where `k` is present, at the
/// end otherwise (`HashMap::insert`).
pub fn put<V>(t: &mut Vec<(String, V)>, k: String, v: V) -> (r: Option<usize>)
    requires
        distinct_keys(old(t)@),
    ensures
        distinct_keys(final(t)@),
        match r {
            Some(i) => i < old(t)@.len() && old(t)@[i as int].0@ == k@ && final(t)@ == old(t)@.update(
                i as int,
                (k, v),
            ),
            None => (forall|j: int| 0 <= j < old(t)@.len() ==> old(t)@[j].0@ != k@) && final(t)@
                == old(t)@.push((k, v)),
        },
{
    match find_key(t, &k) {
        Some(i) => {
            t.set(i, (k, v));
            Some(i)
        },
        None => {
            t.push((k, v));
            None
        },
    }
}

impl CodeMapper {
    pub open spec fn files_view(&self) -> Seq<(Seq<char>, FileView)> {
        file_entries(self.files@)
    }

    pub open spec fn graph_view(&self) -> Seq<(Seq<char>, Seq<Seq<char>>)> {
        list_entries(self.graph@)
    }

    pub open spec fn reverse_view(&self) -> Seq<(Seq<char>, Seq<Seq<char>>)> {
        list_entries(self.reverse_graph@)
    }

    pub open spec fn calls_view(&self) -> Seq<(Seq<char>, Seq<Seq<char>>)> {
        list_entries(self.call_graph@)
    }

    /// The paths of the files, in table order.
    pub open spec fn file_keys(&self) -> Seq<Seq<char>> {
        keys(self.files_view())
    }

    /// Every table holds at most one entry per key.
    pub open spec fn wf(&self) -> bool {
        &&& distinct_keys(self.files@)
        &&& distinct_keys(self.graph@)
        &&& distinct_keys(self.reverse_graph@)
        &&& distinct_keys(self.call_graph@)
    }

    /// An analyser with no files.
    pub fn new() -> (r: Self)
        ensures
            r.wf(),
            r.files@.len() == 0,
            r.graph@.len() == 0,
            r.reverse_graph@.len() == 0,
            r.call_graph@.len() == 0,
            r.graph_mirrors_files(),
    {
        let r = CodeMapper {
            files: Vec::new(),
            graph: Vec::new(),
            reverse_graph: Vec::new(),
            call_graph: Vec::new(),
        };
        assert(r.graph_view().len() == 0);
        assert(r.files_view().len() == 0);
        assert(as_map(r.graph_view()) =~= as_map(r.files_view()).map_values(|f: FileView| f.imports));
        r
    }
}


// ------------------------------------------------------------------
// Resolving an import to a file
// ------------------------------------------------------------------

/// The file stem of path `f`, or the empty text where it has none.
pub open spec fn stem_text(f: Seq<char>) -> Seq<char> {
    match path_stem(f) {
        Some(s) => s,
        None => Seq::empty(),
    }
}

/// Whether path `f` ends with `/`, the import name `imp` and the extension `ext`.
pub open spec fn slash_suffix(f: Seq<char>, imp: Seq<char>, ext: Seq<char>) -> bool {
    (seq!['/'] + imp + ext).is_suffix_of(f)
}

/// Whether the file at path `f` is the one that the import name `imp`
/// designates: its stem is `imp`, or it ends with `/imp` or `/imp.ext` for
/// one of the source extensions.
pub open spec fn import_matches(f: Seq<char>, imp: Seq<char>) -> bool {
    ||| stem_text(f) == imp
    ||| slash_suffix(f, imp, ""@)
    ||| slash_suffix(f, imp, ".rs"@)
    ||| slash_suffix(f, imp, ".py"@)
    ||| slash_suffix(f, imp, ".js"@)
    ||| slash_suffix(f, imp, ".ts"@)
    ||| slash_suffix(f, imp, ".mq5"@)
    ||| slash_suffix(f, imp, ".c"@)
    ||| slash_suffix(f, imp, ".cpp"@)
}

/// The first of the paths `fk` that the import name `imp` designates.
pub open spec fn resolve(fk: Seq<Seq<char>>, imp: Seq<char>) -> Option<Seq<char>>
    decreases fk.len(),
{
    if fk.len() == 0 {
        None
    } else if import_matches(fk[0], imp) {
        Some(fk[0])
    } else {
        resolve(fk.drop_first(), imp)
    }
}

pub proof fn lemma_resolve_member(fk: Seq<Seq<char>>, imp: Seq<char>)
    ensures
        resolve(fk, imp) matches Some(f) ==> fk.contains(f),
    decreases fk.len(),
{
    if fk.len() > 0 && !import_matches(fk[0], imp) {
        lemma_resolve_member(fk.drop_first(), imp);
        if resolve(fk, imp) is Some {
            let f = resolve(fk, imp)->0;
            let i = choose|i: int| 0 <= i < fk.drop_first().len() && fk.drop_first()[i] == f;
            assert(fk[i + 1] == f);
        }
    } else if fk.len() > 0 {
        assert(fk[0] == fk[0]);
    }
}

/// Whether `f` ends with `/`, `imp` and the literal `ext`.
fn slash_suffix_exec(f: &[char], imp: &[char], ext: &str) -> (r: bool)
    ensures
        r == slash_suffix(f@, imp@, ext@),
{
    let mut pat: Vec<char> = vec!['/'];
    assert(pat@ =~= seq!['/']);
    let mut i: usize = 0;
    while i < imp.len()
        invariant
            i <= imp@.len(),
            pat@ == seq!['/'] + imp@.take(i as int),
        decreases imp@.len() - i,
    {
        pat.push(imp[i]);
        assert(pat@ =~= seq!['/'] + imp@.take(i + 1));
        i += 1;
    }
    assert(imp@.take(imp@.len() as int) =~= imp@);
    let e = chars_of(ext);
    let mut j: usize = 0;
    while j < e.len()
        invariant
            j <= e@.len(),
            pat@ == seq!['/'] + imp@ + e@.take(j as int),
        decreases e@.len() - j,
    {
        pat.push(e[j]);
        assert(pat@ =~= seq!['/'] + imp@ + e@.take(j + 1));
        j += 1;
    }
    assert(e@.take(e@.len() as int) =~= e@);
    ends_with(f, &pat)
}

/// Whether the file at path `f` is the one that the import name `imp` designates.
fn import_matches_exec(f: &String, imp: &[char]) -> (r: bool)
    ensures
        r == import_matches(f@, imp@),
{
    let stem: Vec<char> = match file_stem(f.as_str()) {
        Some(s) => chars_of(s.as_str()),
        None => Vec::new(),
    };
    assert(stem@ =~= stem_text(f@));
    let fc = chars_of(f.as_str());
    same_chars(&stem, imp) || slash_suffix_exec(&fc, imp, "") || slash_suffix_exec(&fc, imp, ".rs")
        || slash_suffix_exec(&fc, imp, ".py") || slash_suffix_exec(&fc, imp, ".js")
        || slash_suffix_exec(&fc, imp, ".ts") || slash_suffix_exec(&fc, imp, ".mq5")
        || slash_suffix_exec(&fc, imp, ".c") || slash_suffix_exec(&fc, imp, ".cpp")
}

impl CodeMapper {
    /// The path of the first file (in table order) that the import name
    /// `import_name` designates.
    pub fn find_file_by_import(&self, import_name: &str) -> (r: Option<String>)
        requires
            self.wf(),
        ensures
            match r {
                Some(f) => resolve(self.file_keys(), import_name@) == Some(f@),
                None => resolve(self.file_keys(), import_name@) is None,
            },
            r matches Some(f) ==> self.file_keys().contains(f@),
    {
        let imp = chars_of(import_name);
        let ghost fk = self.file_keys();
        proof {
            lemma_file_keys(self.files@);
        }
        let mut i: usize = 0;
        assert(fk.skip(0) =~= fk);
        while i < self.files.len()
            invariant
                fk == self.file_keys(),
                fk.len() == self.files@.len(),
                forall|j: int| 0 <= j < self.files@.len() ==> #[trigger] fk[j] == self.files@[j].0@,
                imp@ == import_name@,
                i <= self.files@.len(),
                resolve(fk, imp@) == resolve(fk.skip(i as int), imp@),
            decreases self.files@.len() - i,
        {
            let ghost rest = fk.skip(i as int);
            assert(rest[0] == fk[i as int]);
            assert(rest.drop_first() =~= fk.skip(i + 1));
            if import_matches_exec(&self.files[i].0, &imp) {
                proof {
                    lemma_resolve_member(fk, imp@);
                }
                return Some(self.files[i].0.clone());
            }
            i += 1;
        }
        None
    }
}


// ------------------------------------------------------------------
// The reverse graph and dead code
// ------------------------------------------------------------------

/// `src` once for each import in `imps` that resolves to the file `t`.
pub open spec fn contributions(fk: Seq<Seq<char>>, src: Seq<char>, imps: Seq<Seq<char>>, t: Seq<char>) -> Seq<Seq<char>>
    decreases imps.len(),
{
    if imps.len() == 0 {
        Seq::empty()
    } else {
        contributions(fk, src, imps.drop_last(), t) + if resolve(fk, imps.last()) == Some(t) {
            seq![src]
        } else {
            Seq::<Seq<char>>::empty()
        }
    }
}

/// The files of the import graph `g` whose imports resolve to the file `t`,
/// once per such import, in graph order.
pub open spec fn importers(fk: Seq<Seq<char>>, g: Seq<(Seq<char>, Seq<Seq<char>>)>, t: Seq<char>) -> Seq<Seq<char>>
    decreases g.len(),
{
    if g.len() == 0 {
        Seq::empty()
    } else {
        importers(fk, g.drop_last(), t) + contributions(fk, g.last().0, g.last().1, t)
    }
}

/// The reverse of the import graph `g` over the files `fk`: an entry for
/// every file of the graph and every file that some import resolves to,
/// mapped to its importers.
pub open spec fn reverse_of(fk: Seq<Seq<char>>, g: Seq<(Seq<char>, Seq<Seq<char>>)>) -> Map<Seq<char>, Seq<Seq<char>>> {
    Map::new(
        |t: Seq<char>| keys(g).contains(t) || importers(fk, g, t).len() > 0,
        |t: Seq<char>| importers(fk, g, t),
    )
}

/// The importers found after the first `i` graph entries and the first `j`
/// imports of entry `i`.
pub open spec fn importers_upto(
    fk: Seq<Seq<char>>,
    g: Seq<(Seq<char>, Seq<Seq<char>>)>,
    i: int,
    j: int,
    t: Seq<char>,
) -> Seq<Seq<char>> {
    importers(fk, g.take(i), t) + contributions(fk, g[i].0, g[i].1.take(j), t)
}

/// The reverse graph built after the first `i` graph entries and the first
/// `j` imports of entry `i`.
pub open spec fn reverse_upto(fk: Seq<Seq<char>>, g: Seq<(Seq<char>, Seq<Seq<char>>)>, i: int, j: int) -> Map<
    Seq<char>,
    Seq<Seq<char>>,
> {
    Map::new(
        |t: Seq<char>| keys(g).contains(t) || importers_upto(fk, g, i, j, t).len() > 0,
        |t: Seq<char>| importers_upto(fk, g, i, j, t),
    )
}

/// The list entry of `k` gains `v` at its end; an entry is made if `k` has none.
fn append_to_entry(t: &mut Vec<(String, Vec<String>)>, k: String, v: String)
    requires
        distinct_keys(old(t)@),
    ensures
        distinct_keys(final(t)@),
        as_map(list_entries(final(t)@)) == as_map(list_entries(old(t)@)).insert(
            k@,
            (if as_map(list_entries(old(t)@)).contains_key(k@) {
                as_map(list_entries(old(t)@))[k@]
            } else {
                Seq::<Seq<char>>::empty()
            }).push(v@),
        ),
{
    let ghost old_t = t@;
    proof {
        lemma_list_keys(old_t);
        lemma_as_map_dom(list_entries(old_t));
    }
    match find_key(t, &k) {
        Some(p) => {
            proof {
                lemma_as_map_index(list_entries(old_t), p as int);
                assert(list_entries(old_t)[p as int] == (old_t[p as int].0@, str_views(old_t[p as int].1@)));
            }
            let ghost old_list = t@[p as int].1@;
            t[p].1.push(v);
            let ghost new_list = t@[p as int].1;
            assert(t@ == old_t.update(p as int, (old_t[p as int].0, new_list)));
            assert(str_views(new_list@) =~= str_views(old_list).push(v@));
            assert(list_entries(t@) =~= list_entries(old_t).update(
                p as int,
                (list_entries(old_t)[p as int].0, str_views(new_list@)),
            ));
            proof {
                lemma_as_map_update(list_entries(old_t), p as int, str_views(new_list@));
            }
            assert(distinct_keys(t@)) by {
                assert forall|a: int, b: int|
                    0 <= a < t@.len() && 0 <= b < t@.len() && a != b implies t@[a].0@ != t@[b].0@ by {
                    assert(t@[a].0 == old_t[a].0);
                    assert(t@[b].0 == old_t[b].0);
                }
            }
        },
        None => {
            let list = vec![v];
            assert(str_views(list@) =~= Seq::<Seq<char>>::empty().push(v@));
            let ghost kv = k@;
            t.push((k, list));
            assert(!keys(list_entries(old_t)).contains(kv)) by {
                if keys(list_entries(old_t)).contains(kv) {
                    let i = choose|i: int| 0 <= i < keys(list_entries(old_t)).len() && keys(list_entries(old_t))[i] == kv;
                    assert(old_t[i].0@ == kv);
                }
            }
            assert(list_entries(t@) =~= list_entries(old_t).push((kv, str_views(list@))));
            proof {
                lemma_as_map_push(list_entries(old_t), kv, str_views(list@));
            }
        },
    }
}

impl CodeMapper {
    /// The reverse graph of `self`'s import graph.
    pub open spec fn spec_reverse(&self) -> Map<Seq<char>, Seq<Seq<char>>> {
        reverse_of(self.file_keys(), self.graph_view())
    }

    /// Rebuilds the reverse graph: every file of the import graph, and every
    /// file that an import resolves to, mapped to the files importing it.
    pub fn build_reverse_graph(&mut self)
        requires
            old(self).wf(),
        ensures
            final(self).wf(),
            final(self).files == old(self).files,
            final(self).graph == old(self).graph,
            final(self).call_graph == old(self).call_graph,
            as_map(final(self).reverse_view()) == old(self).spec_reverse(),
    {
        let ghost fk = self.file_keys();
        let ghost g = self.graph_view();
        proof {
            lemma_list_keys(self.graph@);
        }
        let mut rev: Vec<(String, Vec<String>)> = Vec::new();
        let n = self.graph.len();
        let mut i: usize = 0;
        while i < n
            invariant
                n == self.graph@.len(),
                g == self.graph_view(),
                self.wf(),
                i <= n,
                distinct_keys(rev@),
                rev@.len() == i,
                forall|a: int| 0 <= a < i ==> #[trigger] rev@[a].0@ == self.graph@[a].0@ && rev@[a].1@.len() == 0,
            decreases n - i,
        {
            let k = self.graph[i].0.clone();
            rev.push((k, Vec::new()));
            i += 1;
        }
        proof {
            lemma_list_keys(rev@);
            lemma_as_map_dom(list_entries(rev@));
            assert forall|t: Seq<char>| as_map(list_entries(rev@)).contains_key(t) implies as_map(list_entries(rev@))[t] == Seq::<Seq<char>>::empty() by {
                let a = choose|a: int| 0 <= a < keys(list_entries(rev@)).len() && keys(list_entries(rev@))[a] == t;
                lemma_as_map_index(list_entries(rev@), a);
                assert(list_entries(rev@)[a].1 =~= Seq::<Seq<char>>::empty());
            }
            assert forall|t: Seq<char>| keys(list_entries(rev@)).contains(t) <==> keys(g).contains(t) by {
                if keys(g).contains(t) {
                    let a = choose|a: int| 0 <= a < keys(g).len() && keys(g)[a] == t;
                    assert(keys(list_entries(rev@))[a] == t);
                }
                if keys(list_entries(rev@)).contains(t) {
                    let a = choose|a: int| 0 <= a < keys(list_entries(rev@)).len() && keys(list_entries(rev@))[a] == t;
                    assert(keys(g)[a] == t);
                }
            }
            assert(as_map(list_entries(rev@)) =~= reverse_upto(fk, g, 0, 0));
        }
        let mut i: usize = 0;
        while i < n
            invariant
                n == self.graph@.len(),
                g == self.graph_view(),
                fk == self.file_keys(),
                self.wf(),
                i <= n,
                distinct_keys(rev@),
                as_map(list_entries(rev@)) == reverse_upto(fk, g, i as int, 0),
            decreases n - i,
        {
            let src = &self.graph[i].0;
            let imps = &self.graph[i].1;
            assert(g[i as int] == (src@, str_views(imps@)));
            let mut j: usize = 0;
            while j < imps.len()
                invariant
                    n == self.graph@.len(),
                    g == self.graph_view(),
                    fk == self.file_keys(),
                    self.wf(),
                    i < n,
                    g[i as int] == (src@, str_views(imps@)),
                    j <= imps@.len(),
                    distinct_keys(rev@),
                    as_map(list_entries(rev@)) == reverse_upto(fk, g, i as int, j as int),
                decreases imps@.len() - j,
            {
                let ghost imps_v = g[i as int].1;
                assert(imps_v.take(j + 1).drop_last() =~= imps_v.take(j as int));
                assert(imps_v.take(j + 1).last() == imps@[j as int]@);
                let ghost before = as_map(list_entries(rev@));
                match self.find_file_by_import(imps[j].as_str()) {
                    Some(target) => {
                        let ghost tv = target@;
                        append_to_entry(&mut rev, target, src.clone());
                        assert(as_map(list_entries(rev@)) =~= reverse_upto(fk, g, i as int, j + 1)) by {
                            assert forall|t: Seq<char>| #![auto] importers_upto(fk, g, i as int, j + 1, t)
                                == importers_upto(fk, g, i as int, j as int, t) + if t == tv {
                                seq![src@]
                            } else {
                                Seq::<Seq<char>>::empty()
                            } by {
                                assert(contributions(fk, src@, imps_v.take(j + 1), t) == contributions(
                                    fk,
                                    src@,
                                    imps_v.take(j as int),
                                    t,
                                ) + if t == tv {
                                    seq![src@]
                                } else {
                                    Seq::<Seq<char>>::empty()
                                });
                            }
                            if !before.contains_key(tv) {
                                assert(importers_upto(fk, g, i as int, j as int, tv) =~= Seq::<Seq<char>>::empty());
                            }
                            let after = as_map(list_entries(rev@));
                            let want = reverse_upto(fk, g, i as int, j + 1);
                            assert(after.contains_key(tv));
                            assert(after[tv] == importers_upto(fk, g, i as int, j as int, tv).push(src@));
                            assert(importers_upto(fk, g, i as int, j as int, tv).push(src@) =~= importers_upto(fk, g, i as int, j as int, tv) + seq![src@]);
                            assert(want.contains_key(tv));
                            assert(after[tv] == want[tv]);
                            assert forall|t: Seq<char>| t != tv implies (after.contains_key(t) <==> want.contains_key(t)) && (after.contains_key(t) ==> after[t] == want[t]) by {
                                assert(importers_upto(fk, g, i as int, j + 1, t) =~= importers_upto(fk, g, i as int, j as int, t));
                            }
                        }
                    },
                    None => {
                        assert(as_map(list_entries(rev@)) =~= reverse_upto(fk, g, i as int, j + 1)) by {
                            assert forall|t: Seq<char>| #![auto] importers_upto(fk, g, i as int, j + 1, t)
                                == importers_upto(fk, g, i as int, j as int, t) by {
                                assert(contributions(fk, src@, imps_v.take(j + 1), t) =~= contributions(
                                    fk,
                                    src@,
                                    imps_v.take(j as int),
                                    t,
                                ));
                            }
                        }
                    },
                }
                j += 1;
            }
            proof {
                let imps_v = g[i as int].1;
                assert(imps_v.take(imps_v.len() as int) =~= imps_v);
                assert(g.take(i + 1).drop_last() =~= g.take(i as int));
                assert(g.take(i + 1).last() == g[i as int]);
                assert forall|t: Seq<char>| #![auto] importers_upto(fk, g, i + 1, 0, t) == importers_upto(
                    fk,
                    g,
                    i as int,
                    imps_v.len() as int,
                    t,
                ) by {
                    assert(g[i + 1].1.take(0) =~= Seq::<Seq<char>>::empty());
                    assert(contributions(fk, g[i + 1].0, g[i + 1].1.take(0), t) =~= Seq::<Seq<char>>::empty());
                    assert(importers_upto(fk, g, i + 1, 0, t) =~= importers(fk, g.take(i + 1), t));
                }
                assert(reverse_upto(fk, g, i + 1, 0) =~= reverse_upto(fk, g, i as int, imps_v.len() as int));
            }
            i += 1;
        }
        proof {
            assert(g.take(n as int) =~= g);
            assert forall|t: Seq<char>| #![auto] importers_upto(fk, g, n as int, 0, t) == importers(fk, g, t) by {
                assert(g[n as int].1.take(0) =~= Seq::<Seq<char>>::empty());
                assert(contributions(fk, g[n as int].0, g[n as int].1.take(0), t) =~= Seq::<Seq<char>>::empty());
                assert(importers_upto(fk, g, n as int, 0, t) =~= importers(fk, g, t));
            }
            assert(reverse_upto(fk, g, n as int, 0) =~= reverse_of(fk, g));
        }
        self.reverse_graph = rev;
    }
}


impl CodeMapper {
    /// Whether some file imports the file `k`, according to the reverse graph.
    pub open spec fn imported(&self, k: Seq<char>) -> bool {
        as_map(self.reverse_view()).contains_key(k) && as_map(self.reverse_view())[k].len() > 0
    }

    /// The files, in table order, that the reverse graph shows no importer for.
    pub open spec fn spec_dead_code(&self) -> Seq<Seq<char>> {
        self.file_keys().filter(|k: Seq<char>| !self.imported(k))
    }

    /// The files of the import graph, in graph order, that import nothing.
    pub open spec fn spec_orphan_files(&self) -> Seq<Seq<char>> {
        keys(self.graph_view().filter(|e: (Seq<char>, Seq<Seq<char>>)| e.1.len() == 0))
    }

    /// Files that no file imports (dead code), in table order.
    pub fn dead_code(&self) -> (r: Vec<String>)
        requires
            self.wf(),
        ensures
            str_views(r@) == self.spec_dead_code(),
    {
        let ghost fk = self.file_keys();
        let ghost f = |k: Seq<char>| !self.imported(k);
        proof {
            lemma_file_keys(self.files@);
            lemma_list_keys(self.reverse_graph@);
            lemma_as_map_dom(self.reverse_view());
        }
        let mut r: Vec<String> = Vec::new();
        let mut i: usize = 0;
        assert(fk.take(0).filter(f) =~= Seq::<Seq<char>>::empty());
        while i < self.files.len()
            invariant
                self.wf(),
                fk == self.file_keys(),
                f == (|k: Seq<char>| !self.imported(k)),
                fk.len() == self.files@.len(),
                forall|a: int| 0 <= a < self.files@.len() ==> #[trigger] fk[a] == self.files@[a].0@,
                keys(self.reverse_view()).no_duplicates(),
                forall|a: int| 0 <= a < self.reverse_graph@.len() ==> #[trigger] keys(self.reverse_view())[a] == self.reverse_graph@[a].0@,
                forall|k: Seq<char>| #[trigger] as_map(self.reverse_view()).contains_key(k) <==> keys(self.reverse_view()).contains(k),
                i <= self.files@.len(),
                str_views(r@) == fk.take(i as int).filter(f),
            decreases self.files@.len() - i,
        {
            let key = &self.files[i].0;
            let used = match find_key(&self.reverse_graph, key) {
                Some(p) => {
                    proof {
                        lemma_as_map_index(self.reverse_view(), p as int);
                        assert(self.reverse_view()[p as int] == (self.reverse_graph@[p as int].0@, str_views(self.reverse_graph@[p as int].1@)));
                    }
                    self.reverse_graph[p].1.len() > 0
                },
                None => {
                    proof {
                        if keys(self.reverse_view()).contains(key@) {
                            let a = choose|a: int| 0 <= a < keys(self.reverse_view()).len() && keys(self.reverse_view())[a] == key@;
                            assert(self.reverse_graph@[a].0@ == key@);
                        }
                    }
                    false
                },
            };
            assert(used == self.imported(key@));
            proof {
                reveal_with_fuel(Seq::filter, 1);
                assert(fk.take(i + 1).drop_last() =~= fk.take(i as int));
            }
            if !used {
                let ghost old_r = r@;
                r.push(key.clone());
                assert(str_views(r@) =~= str_views(old_r).push(key@));
            }
            i += 1;
        }
        assert(fk.take(self.files@.len() as int) =~= fk);
        r
    }

    /// Files of the import graph that import nothing (orphans), in graph order.
    pub fn orphan_files(&self) -> (r: Vec<String>)
        ensures
            str_views(r@) == self.spec_orphan_files(),
    {
        let ghost g = self.graph_view();
        let ghost f = |e: (Seq<char>, Seq<Seq<char>>)| e.1.len() == 0;
        let mut r: Vec<String> = Vec::new();
        let mut i: usize = 0;
        assert(keys(g.take(0).filter(f)) =~= Seq::<Seq<char>>::empty());
        while i < self.graph.len()
            invariant
                g == self.graph_view(),
                f == (|e: (Seq<char>, Seq<Seq<char>>)| e.1.len() == 0),
                i <= self.graph@.len(),
                str_views(r@) == keys(g.take(i as int).filter(f)),
            decreases self.graph@.len() - i,
        {
            assert(g[i as int] == (self.graph@[i as int].0@, str_views(self.graph@[i as int].1@)));
            proof {
                reveal_with_fuel(Seq::filter, 1);
                assert(g.take(i + 1).drop_last() =~= g.take(i as int));
            }
            if self.graph[i].1.len() == 0 {
                let ghost old_r = r@;
                r.push(self.graph[i].0.clone());
                assert(keys(g.take(i + 1).filter(f)) =~= keys(g.take(i as int).filter(f)).push(self.graph@[i as int].0@));
                assert(str_views(r@) =~= str_views(old_r).push(self.graph@[i as int].0@));
            }
            i += 1;
        }
        assert(g.take(self.graph@.len() as int) =~= g);
        r
    }
}

// ------------------------------------------------------------------
// Laws of the reverse graph
// ------------------------------------------------------------------

/// Some import of some file of `g` resolves to the file `t`.
pub open spec fn imported_somewhere(fk: Seq<Seq<char>>, g: Seq<(Seq<char>, Seq<Seq<char>>)>, t: Seq<char>) -> bool {
    exists|i: int, j: int| 0 <= i < g.len() && 0 <= j < g[i].1.len() && resolve(fk, #[trigger] g[i].1[j]) == Some(t)
}

pub proof fn lemma_contributions_nonempty(fk: Seq<Seq<char>>, src: Seq<char>, imps: Seq<Seq<char>>, t: Seq<char>)
    ensures
        contributions(fk, src, imps, t).len() > 0 <==> exists|j: int| 0 <= j < imps.len() && resolve(fk, #[trigger] imps[j]) == Some(t),
    decreases imps.len(),
{
    if imps.len() > 0 {
        lemma_contributions_nonempty(fk, src, imps.drop_last(), t);
        if exists|j: int| 0 <= j < imps.len() && resolve(fk, #[trigger] imps[j]) == Some(t) {
            let j = choose|j: int| 0 <= j < imps.len() && resolve(fk, #[trigger] imps[j]) == Some(t);
            if j < imps.len() - 1 {
                assert(imps.drop_last()[j] == imps[j]);
            }
        }
        if exists|j: int| 0 <= j < imps.drop_last().len() && resolve(fk, #[trigger] imps.drop_last()[j]) == Some(t) {
            let j = choose|j: int| 0 <= j < imps.drop_last().len() && resolve(fk, #[trigger] imps.drop_last()[j]) == Some(t);
            assert(imps[j] == imps.drop_last()[j]);
        }
    }
}

pub proof fn lemma_importers_nonempty(fk: Seq<Seq<char>>, g: Seq<(Seq<char>, Seq<Seq<char>>)>, t: Seq<char>)
    ensures
        importers(fk, g, t).len() > 0 <==> imported_somewhere(fk, g, t),
    decreases g.len(),
{
    if g.len() > 0 {
        let d = g.drop_last();
        lemma_importers_nonempty(fk, d, t);
        lemma_contributions_nonempty(fk, g.last().0, g.last().1, t);
        if imported_somewhere(fk, g, t) {
            let (i, j) = choose|i: int, j: int| 0 <= i < g.len() && 0 <= j < g[i].1.len() && resolve(fk, #[trigger] g[i].1[j]) == Some(t);
            if i < g.len() - 1 {
                assert(d[i] == g[i]);
                assert(imported_somewhere(fk, d, t));
            } else {
                assert(g.last().1[j] == g[i].1[j]);
            }
        }
        if imported_somewhere(fk, d, t) {
            let (i, j) = choose|i: int, j: int| 0 <= i < d.len() && 0 <= j < d[i].1.len() && resolve(fk, #[trigger] d[i].1[j]) == Some(t);
            assert(g[i] == d[i]);
            assert(imported_somewhere(fk, g, t));
        }
    }
}

/// Dead code is what nothing imports: once the reverse graph is built, a
/// file is reported as dead code exactly when no import of any file
/// resolves to it.
/// The extensions with which an import may name a file: none, or one of the
/// source extensions.
pub open spec fn import_extension(ext: Seq<char>) -> bool {
    ||| ext == ""@
    ||| ext == ".rs"@
    ||| ext == ".py"@
    ||| ext == ".js"@
    ||| ext == ".ts"@
    ||| ext == ".mq5"@
    ||| ext == ".c"@
    ||| ext == ".cpp"@
}

pub proof fn lemma_resolve_some(fk: Seq<Seq<char>>, imp: Seq<char>, k: int)
    requires
        0 <= k < fk.len(),
        import_matches(fk[k], imp),
    ensures
        resolve(fk, imp) is Some,
    decreases fk.len(),
{
    if k > 0 && !import_matches(fk[0], imp) {
        assert(fk.drop_first()[k - 1] == fk[k]);
        lemma_resolve_some(fk.drop_first(), imp, k - 1);
    }
}

/// An import that names a file of the table resolves to a file of the
/// table: when some path is `p/imp` or `p/imp.ext` for a source extension
/// (a C `#include "util.h"` naming `src/util.h`, a Rust `mod util` naming
/// `src/util.rs`), or has the stem `imp`.
pub proof fn law_import_naming_a_file_resolves(
    fk: Seq<Seq<char>>,
    imp: Seq<char>,
    p: Seq<char>,
    ext: Seq<char>,
)
    requires
        fk.contains(p + seq!['/'] + imp + ext) && import_extension(ext) || exists|f: Seq<char>|
            #[trigger] fk.contains(f) && path_stem(f) == Some(imp),
    ensures
        resolve(fk, imp) is Some,
        fk.contains(resolve(fk, imp)->0),
{
    lemma_resolve_member(fk, imp);
    if fk.contains(p + seq!['/'] + imp + ext) && import_extension(ext) {
        let f = p + seq!['/'] + imp + ext;
        let k = choose|k: int| 0 <= k < fk.len() && fk[k] == f;
        let sfx = seq!['/'] + imp + ext;
        assert(f.subrange(f.len() - sfx.len(), f.len() as int) =~= sfx);
        assert(slash_suffix(f, imp, ext));
        lemma_resolve_some(fk, imp, k);
    } else {
        let f = choose|f: Seq<char>| #[trigger] fk.contains(f) && path_stem(f) == Some(imp);
        let k = choose|k: int| 0 <= k < fk.len() && fk[k] == f;
        assert(stem_text(f) == imp);
        lemma_resolve_some(fk, imp, k);
    }
}

/// A file that another file's import names (as in
/// `law_import_naming_a_file_resolves`) leaves the import resolved to a file
/// that is not dead code.
pub proof fn law_named_import_is_not_dead(m: CodeMapper, i: int, j: int, p: Seq<char>, ext: Seq<char>)
    requires
        m.wf(),
        as_map(m.reverse_view()) == m.spec_reverse(),
        0 <= i < m.graph_view().len(),
        0 <= j < m.graph_view()[i].1.len(),
        m.file_keys().contains(p + seq!['/'] + m.graph_view()[i].1[j] + ext),
        import_extension(ext),
    ensures
        resolve(m.file_keys(), m.graph_view()[i].1[j]) is Some,
        !m.spec_dead_code().contains(resolve(m.file_keys(), m.graph_view()[i].1[j])->0),
{
    let imp = m.graph_view()[i].1[j];
    law_import_naming_a_file_resolves(m.file_keys(), imp, p, ext);
    let t = resolve(m.file_keys(), imp)->0;
    assert(imported_somewhere(m.file_keys(), m.graph_view(), t));
    law_dead_code_is_never_imported(m, t);
}

pub proof fn law_dead_code_is_never_imported(m: CodeMapper, k: Seq<char>)
    requires
        m.wf(),
        as_map(m.reverse_view()) == m.spec_reverse(),
    ensures
        m.spec_dead_code().contains(k) <==> (m.file_keys().contains(k) && !imported_somewhere(
            m.file_keys(),
            m.graph_view(),
            k,
        )),
{
    let f = |x: Seq<char>| !m.imported(x);
    lemma_importers_nonempty(m.file_keys(), m.graph_view(), k);
    if m.spec_dead_code().contains(k) {
        m.file_keys().lemma_filter_contains_rev(f, k);
    }
    if m.file_keys().contains(k) && !imported_somewhere(m.file_keys(), m.graph_view(), k) {
        let i = choose|i: int| 0 <= i < m.file_keys().len() && m.file_keys()[i] == k;
        m.file_keys().lemma_filter_contains(f, i);
    }
}


/// The importers of `t` found in one file are that file, once per import
/// resolving to `t`.
pub proof fn lemma_contributions_members(fk: Seq<Seq<char>>, src: Seq<char>, imps: Seq<Seq<char>>, t: Seq<char>)
    ensures
        forall|x: Seq<char>| #[trigger] contributions(fk, src, imps, t).contains(x) ==> x == src,
        (exists|j: int| 0 <= j < imps.len() && resolve(fk, #[trigger] imps[j]) == Some(t)) ==> contributions(
            fk,
            src,
            imps,
            t,
        ).contains(src),
    decreases imps.len(),
{
    lemma_contributions_nonempty(fk, src, imps, t);
    if imps.len() > 0 {
        lemma_contributions_members(fk, src, imps.drop_last(), t);
        let prev = contributions(fk, src, imps.drop_last(), t);
        let tail = if resolve(fk, imps.last()) == Some(t) {
            seq![src]
        } else {
            Seq::<Seq<char>>::empty()
        };
        assert forall|x: Seq<char>| #[trigger] contributions(fk, src, imps, t).contains(x) implies x == src by {
            let k = choose|k: int| 0 <= k < (prev + tail).len() && (prev + tail)[k] == x;
            if k < prev.len() {
                assert(prev[k] == x);
                assert(prev.contains(x));
            }
        }
        if contributions(fk, src, imps, t).len() > 0 {
            let c = contributions(fk, src, imps, t);
            assert(c.contains(c[0]));
        }
    }
}

/// The files listed as importers of `t` in the graph entries `g` are the
/// files of `g` with an import resolving to `t`.
pub proof fn lemma_importers_members(fk: Seq<Seq<char>>, g: Seq<(Seq<char>, Seq<Seq<char>>)>, t: Seq<char>, s: Seq<char>)
    ensures
        importers(fk, g, t).contains(s) <==> exists|i: int, j: int|
            0 <= i < g.len() && 0 <= j < g[i].1.len() && g[i].0 == s && resolve(fk, #[trigger] g[i].1[j]) == Some(t),
    decreases g.len(),
{
    if g.len() > 0 {
        let d = g.drop_last();
        lemma_importers_members(fk, d, t, s);
        lemma_contributions_members(fk, g.last().0, g.last().1, t);
        let a = importers(fk, d, t);
        let b = contributions(fk, g.last().0, g.last().1, t);
        assert(importers(fk, g, t) == a + b);
        if (a + b).contains(s) {
            let k = choose|k: int| 0 <= k < (a + b).len() && (a + b)[k] == s;
            if k < a.len() {
                assert(a[k] == s);
                assert(a.contains(s));
                let (i, j) = choose|i: int, j: int|
                    0 <= i < d.len() && 0 <= j < d[i].1.len() && d[i].0 == s && resolve(fk, #[trigger] d[i].1[j]) == Some(t);
                assert(g[i] == d[i]);
            } else {
                assert(b[k - a.len()] == s);
                assert(b.contains(s));
                assert(s == g.last().0);
                lemma_contributions_nonempty(fk, g.last().0, g.last().1, t);
                let j = choose|j: int| 0 <= j < g.last().1.len() && resolve(fk, #[trigger] g.last().1[j]) == Some(t);
                assert(g[g.len() - 1] == g.last());
            }
        }
        if exists|i: int, j: int|
            0 <= i < g.len() && 0 <= j < g[i].1.len() && g[i].0 == s && resolve(fk, #[trigger] g[i].1[j]) == Some(t) {
            let (i, j) = choose|i: int, j: int|
                0 <= i < g.len() && 0 <= j < g[i].1.len() && g[i].0 == s && resolve(fk, #[trigger] g[i].1[j]) == Some(t);
            if i < g.len() - 1 {
                assert(d[i] == g[i]);
                assert(a.contains(s));
                let k = choose|k: int| 0 <= k < a.len() && a[k] == s;
                assert((a + b)[k] == s);
            } else {
                assert(g.last().1[j] == g[i].1[j]);
                assert(b.contains(s));
                let k = choose|k: int| 0 <= k < b.len() && b[k] == s;
                assert((a + b)[a.len() + k] == s);
            }
        }
    }
}

/// The reverse graph is the inverse of the resolved import graph: once it is
/// built, the file `s` is listed as an importer of the file `t` exactly when
/// some import of `s` resolves to `t`.
pub proof fn law_reverse_graph_inverts_imports(m: CodeMapper, t: Seq<char>, s: Seq<char>)
    requires
        m.wf(),
        as_map(m.reverse_view()) == m.spec_reverse(),
    ensures
        (as_map(m.reverse_view()).contains_key(t) && as_map(m.reverse_view())[t].contains(s)) <==> exists|i: int, j: int|
            0 <= i < m.graph_view().len() && 0 <= j < m.graph_view()[i].1.len() && m.graph_view()[i].0 == s
                && resolve(m.file_keys(), #[trigger] m.graph_view()[i].1[j]) == Some(t),
{
    lemma_importers_members(m.file_keys(), m.graph_view(), t, s);
    let l = importers(m.file_keys(), m.graph_view(), t);
    if l.contains(s) {
        let k = choose|k: int| 0 <= k < l.len() && l[k] == s;
        assert(l.len() > 0);
    }
}

} // verus!
