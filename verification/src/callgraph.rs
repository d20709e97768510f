//! The call graph: each function, qualified by its file, mapped to the
//! functions it calls, looked up first in its own file and then in the
//! other files in table order.
use vstd::prelude::*;
use crate::mapper::{CodeMapper, file_entries, list_entries, distinct_keys, lemma_list_keys, put};
use crate::model::{FileNode, FileView, FunctionNode, FunctionView};
use crate::parse::opt_seq;
use crate::table::{keys, as_map, lemma_as_map_push, lemma_as_map_dom, lemma_as_map_update};
use crate::text::{str_views, chars_of, string_of};

verus! {

/// `path::name`.
pub open spec fn qualify(path: Seq<char>, name: Seq<char>) -> Seq<char> {
    path + "::"@ + name
}

/// Whether the file `node` has a function named `name`.
pub open spec fn has_function(node: FileView, name: Seq<char>) -> bool {
    exists|j: int| 0 <= j < node.functions.len() && #[trigger] node.functions[j].name == name
}

/// The first file of `files`, other than the one at `skip`, that has a
/// function named `name`.
pub open spec fn first_provider(files: Seq<(Seq<char>, FileView)>, skip: Seq<char>, name: Seq<char>) -> Option<
    Seq<char>,
>
    decreases files.len(),
{
    if files.len() == 0 {
        None
    } else if files[0].0 != skip && has_function(files[0].1, name) {
        Some(files[0].0)
    } else {
        first_provider(files.drop_first(), skip, name)
    }
}

/// The function that a call of `name` from the file `(path, node)` reaches:
/// one of the same file if there is one, else one of the first other file
/// that has it.
pub open spec fn callee(files: Seq<(Seq<char>, FileView)>, path: Seq<char>, node: FileView, name: Seq<char>) -> Option<
    Seq<char>,
> {
    if has_function(node, name) {
        Some(qualify(path, name))
    } else {
        match first_provider(files, path, name) {
            Some(p) => Some(qualify(p, name)),
            None => None,
        }
    }
}

/// The functions that the calls `calls` from the file `(path, node)` reach,
/// in order, unresolved calls left out.
pub open spec fn callees(files: Seq<(Seq<char>, FileView)>, path: Seq<char>, node: FileView, calls: Seq<Seq<char>>) -> Seq<
    Seq<char>,
>
    decreases calls.len(),
{
    if calls.len() == 0 {
        Seq::empty()
    } else {
        callees(files, path, node, calls.drop_last()) + opt_seq(callee(files, path, node, calls.last()))
    }
}

/// `m` with an entry for each of the functions `fns` of the file
/// `(path, node)`; a later function of the same name replaces an earlier one.
pub open spec fn add_file_calls(
    m: Map<Seq<char>, Seq<Seq<char>>>,
    files: Seq<(Seq<char>, FileView)>,
    path: Seq<char>,
    node: FileView,
    fns: Seq<FunctionView>,
) -> Map<Seq<char>, Seq<Seq<char>>>
    decreases fns.len(),
{
    if fns.len() == 0 {
        m
    } else {
        add_file_calls(m, files, path, node, fns.drop_last()).insert(
            qualify(path, fns.last().name),
            callees(files, path, node, fns.last().calls),
        )
    }
}

/// The call graph of the first `i` files of `files`.
pub open spec fn call_graph_upto(files: Seq<(Seq<char>, FileView)>, i: int) -> Map<Seq<char>, Seq<Seq<char>>>
    decreases i,
{
    if i <= 0 {
        Map::empty()
    } else {
        add_file_calls(
            call_graph_upto(files, i - 1),
            files,
            files[i - 1].0,
            files[i - 1].1,
            files[i - 1].1.functions,
        )
    }
}

/// The call graph of `files`.
pub open spec fn call_graph_of(files: Seq<(Seq<char>, FileView)>) -> Map<Seq<char>, Seq<Seq<char>>> {
    call_graph_upto(files, files.len() as int)
}

/// `path::name` as a string.
fn qualify_exec(path: &String, name: &String) -> (r: String)
    ensures
        r@ == qualify(path@, name@),
{
    let mut cs = chars_of(path.as_str());
    let sep = chars_of("::");
    let nm = chars_of(name.as_str());
    let ghost p = cs@;
    let mut i: usize = 0;
    while i < sep.len()
        invariant
            i <= sep@.len(),
            cs@ == p + sep@.take(i as int),
        decreases sep@.len() - i,
    {
        cs.push(sep[i]);
        assert(cs@ =~= p + sep@.take(i + 1));
        i += 1;
    }
    assert(sep@.take(sep@.len() as int) =~= sep@);
    let ghost q = cs@;
    let mut j: usize = 0;
    while j < nm.len()
        invariant
            j <= nm@.len(),
            cs@ == q + nm@.take(j as int),
        decreases nm@.len() - j,
    {
        cs.push(nm[j]);
        assert(cs@ =~= q + nm@.take(j + 1));
        j += 1;
    }
    assert(nm@.take(nm@.len() as int) =~= nm@);
    string_of(&cs)
}

/// Whether the file `node` has a function named `name`.
fn has_function_exec(node: &FileNode, name: &String) -> (r: bool)
    ensures
        r == has_function(node@, name@),
{
    let mut j: usize = 0;
    while j < node.functions.len()
        invariant
            j <= node.functions@.len(),
            forall|k: int| 0 <= k < j ==> node.functions@[k].name@ != name@,
        decreases node.functions@.len() - j,
    {
        if node.functions[j].name == *name {
            assert(node@.functions[j as int].name == name@);
            return true;
        }
        j += 1;
    }
    assert forall|k: int| 0 <= k < node@.functions.len() implies node@.functions[k].name != name@ by {
        assert(node@.functions[k] == node.functions@[k]@);
    }
    false
}

/// Sets the list entry of `k` to `v`.
fn put_list(t: &mut Vec<(String, Vec<String>)>, k: String, v: Vec<String>)
    requires
        distinct_keys(old(t)@),
    ensures
        distinct_keys(final(t)@),
        as_map(list_entries(final(t)@)) == as_map(list_entries(old(t)@)).insert(k@, str_views(v@)),
{
    let ghost old_t = t@;
    let ghost kv = k@;
    let ghost vv = str_views(v@);
    proof {
        lemma_list_keys(old_t);
    }
    match put(t, k, v) {
        Some(i) => {
            assert(list_entries(t@) =~= list_entries(old_t).update(i as int, (list_entries(old_t)[i as int].0, vv)));
            proof {
                lemma_as_map_update(list_entries(old_t), i as int, vv);
            }
        },
        None => {
            assert(list_entries(t@) =~= list_entries(old_t).push((kv, vv)));
            proof {
                lemma_as_map_push(list_entries(old_t), kv, vv);
            }
        },
    }
}

impl CodeMapper {
    /// The call graph of `self`'s files.
    pub open spec fn spec_call_graph(&self) -> Map<Seq<char>, Seq<Seq<char>>> {
        call_graph_of(self.files_view())
    }

    /// The first file other than `skip` that has a function named `name`.
    fn first_provider_exec(&self, skip: &String, name: &String) -> (r: Option<usize>)
        ensures
            match r {
                Some(k) => k < self.files@.len() && first_provider(self.files_view(), skip@, name@) == Some(
                    self.files@[k as int].0@,
                ),
                None => first_provider(self.files_view(), skip@, name@) is None,
            },
    {
        let ghost fv = self.files_view();
        let mut k: usize = 0;
        assert(fv.skip(0) =~= fv);
        while k < self.files.len()
            invariant
                fv == self.files_view(),
                k <= self.files@.len(),
                first_provider(fv, skip@, name@) == first_provider(fv.skip(k as int), skip@, name@),
            decreases self.files@.len() - k,
        {
            let ghost rest = fv.skip(k as int);
            assert(rest[0] == fv[k as int]);
            assert(fv[k as int] == (self.files@[k as int].0@, self.files@[k as int].1@));
            assert(rest.drop_first() =~= fv.skip(k + 1));
            if self.files[k].0 != *skip && has_function_exec(&self.files[k].1, name) {
                return Some(k);
            }
            k += 1;
        }
        None
    }

    /// The functions reached by the calls of `func` in the file `(path, node)`.
    fn resolve_calls(&self, path: &String, node: &FileNode, func: &FunctionNode) -> (r: Vec<String>)
        ensures
            str_views(r@) == callees(self.files_view(), path@, node@, func@.calls),
    {
        let ghost cv = func@.calls;
        let mut out: Vec<String> = Vec::new();
        let mut c: usize = 0;
        assert(str_views(out@) =~= callees(self.files_view(), path@, node@, cv.take(0)));
        while c < func.calls.len()
            invariant
                cv == func@.calls,
                c <= func.calls@.len(),
                str_views(out@) == callees(self.files_view(), path@, node@, cv.take(c as int)),
            decreases func.calls@.len() - c,
        {
            let called = &func.calls[c];
            assert(cv[c as int] == called@);
            assert(cv.take(c + 1).drop_last() =~= cv.take(c as int));
            let ghost old_out = out@;
            if has_function_exec(node, called) {
                out.push(qualify_exec(path, called));
            } else {
                match self.first_provider_exec(path, called) {
                    Some(k) => {
                        out.push(qualify_exec(&self.files[k].0, called));
                    },
                    None => {},
                }
            }
            assert(str_views(out@) =~= str_views(old_out) + opt_seq(
                callee(self.files_view(), path@, node@, called@),
            ));
            c += 1;
        }
        assert(cv.take(func.calls@.len() as int) =~= cv);
        out
    }

    /// Rebuilds the call graph: every function, as `path::name`, mapped to
    /// the functions its calls reach, looked up in its own file first and
    /// then in the first other file (in table order) that has one of that
    /// name; unresolved calls are left out.
    pub fn build_call_graph(&mut self)
        requires
            old(self).wf(),
        ensures
            final(self).wf(),
            final(self).files == old(self).files,
            final(self).graph == old(self).graph,
            final(self).reverse_graph == old(self).reverse_graph,
            as_map(final(self).calls_view()) == old(self).spec_call_graph(),
    {
        let ghost fv = self.files_view();
        let mut cg: Vec<(String, Vec<String>)> = Vec::new();
        assert(as_map(list_entries(cg@)) =~= call_graph_upto(fv, 0));
        let mut i: usize = 0;
        while i < self.files.len()
            invariant
                fv == self.files_view(),
                self.wf(),
                i <= self.files@.len(),
                distinct_keys(cg@),
                as_map(list_entries(cg@)) == call_graph_upto(fv, i as int),
            decreases self.files@.len() - i,
        {
            let path = &self.files[i].0;
            let node = &self.files[i].1;
            assert(fv[i as int] == (path@, node@));
            let ghost fns = node@.functions;
            let mut k: usize = 0;
            assert(fns.take(0) =~= Seq::<FunctionView>::empty());
            while k < node.functions.len()
                invariant
                    fv == self.files_view(),
                    fv[i as int] == (path@, node@),
                    fns == node@.functions,
                    i < self.files@.len(),
                    k <= node.functions@.len(),
                    distinct_keys(cg@),
                    as_map(list_entries(cg@)) == add_file_calls(
                        call_graph_upto(fv, i as int),
                        fv,
                        path@,
                        node@,
                        fns.take(k as int),
                    ),
                decreases node.functions@.len() - k,
            {
                let func = &node.functions[k];
                assert(fns[k as int] == func@);
                assert(fns.take(k + 1).drop_last() =~= fns.take(k as int));
                let caller = qualify_exec(path, &func.name);
                let callees_v = self.resolve_calls(path, node, func);
                put_list(&mut cg, caller, callees_v);
                k += 1;
            }
            assert(fns.take(node.functions@.len() as int) =~= fns);
            i += 1;
        }
        self.call_graph = cg;
    }
}


// ------------------------------------------------------------------
// Laws of the call graph
// ------------------------------------------------------------------

/// `x` names a function that exists: `path::name` for a file of `files`
/// that has a function `name`.
pub open spec fn names_a_function(files: Seq<(Seq<char>, FileView)>, x: Seq<char>) -> bool {
    exists|k: int, n: Seq<char>| 0 <= k < files.len() && x == qualify(files[k].0, n) && #[trigger] has_function(files[k].1, n)
}

/// Every target listed in `m` names a function that exists.
pub open spec fn targets_exist(files: Seq<(Seq<char>, FileView)>, m: Map<Seq<char>, Seq<Seq<char>>>) -> bool {
    forall|key: Seq<char>, x: Seq<char>| #[trigger] m.contains_key(key) && #[trigger] m[key].contains(x) ==> names_a_function(files, x)
}

pub proof fn lemma_first_provider(files: Seq<(Seq<char>, FileView)>, skip: Seq<char>, name: Seq<char>)
    ensures
        first_provider(files, skip, name) matches Some(p) ==> exists|k: int|
            0 <= k < files.len() && files[k].0 == p && #[trigger] has_function(files[k].1, name),
    decreases files.len(),
{
    if files.len() > 0 && !(files[0].0 != skip && has_function(files[0].1, name)) {
        lemma_first_provider(files.drop_first(), skip, name);
        if first_provider(files, skip, name) is Some {
            let p = first_provider(files, skip, name)->0;
            let k = choose|k: int| 0 <= k < files.drop_first().len() && files.drop_first()[k].0 == p && #[trigger] has_function(files.drop_first()[k].1, name);
            assert(files[k + 1] == files.drop_first()[k]);
        }
    } else if files.len() > 0 {
        assert(has_function(files[0].1, name));
    }
}

pub proof fn lemma_callees_exist(files: Seq<(Seq<char>, FileView)>, i: int, calls: Seq<Seq<char>>)
    requires
        0 <= i < files.len(),
    ensures
        forall|x: Seq<char>| #[trigger] callees(files, files[i].0, files[i].1, calls).contains(x) ==> names_a_function(files, x),
    decreases calls.len(),
{
    if calls.len() > 0 {
        lemma_callees_exist(files, i, calls.drop_last());
        let name = calls.last();
        lemma_first_provider(files, files[i].0, name);
        let prev = callees(files, files[i].0, files[i].1, calls.drop_last());
        let tail = opt_seq(callee(files, files[i].0, files[i].1, name));
        assert forall|x: Seq<char>| #[trigger] callees(files, files[i].0, files[i].1, calls).contains(x) implies names_a_function(files, x) by {
            let k = choose|k: int| 0 <= k < (prev + tail).len() && (prev + tail)[k] == x;
            if k < prev.len() {
                assert(prev[k] == x);
                assert(prev.contains(x));
            } else {
                assert(tail[k - prev.len()] == x);
                if has_function(files[i].1, name) {
                    assert(x == qualify(files[i].0, name));
                } else {
                    let p = first_provider(files, files[i].0, name)->0;
                    let kk = choose|kk: int| 0 <= kk < files.len() && files[kk].0 == p && #[trigger] has_function(files[kk].1, name);
                    assert(x == qualify(files[kk].0, name));
                }
            }
        }
    }
}

pub proof fn lemma_add_file_calls_exist(
    m: Map<Seq<char>, Seq<Seq<char>>>,
    files: Seq<(Seq<char>, FileView)>,
    i: int,
    fns: Seq<FunctionView>,
)
    requires
        0 <= i < files.len(),
        targets_exist(files, m),
    ensures
        targets_exist(files, add_file_calls(m, files, files[i].0, files[i].1, fns)),
    decreases fns.len(),
{
    if fns.len() > 0 {
        lemma_add_file_calls_exist(m, files, i, fns.drop_last());
        lemma_callees_exist(files, i, fns.last().calls);
    }
}

pub proof fn lemma_call_graph_upto_exist(files: Seq<(Seq<char>, FileView)>, i: int)
    requires
        0 <= i <= files.len(),
    ensures
        targets_exist(files, call_graph_upto(files, i)),
    decreases i,
{
    if i > 0 {
        lemma_call_graph_upto_exist(files, i - 1);
        lemma_add_file_calls_exist(call_graph_upto(files, i - 1), files, i - 1, files[i - 1].1.functions);
    }
}

/// The call graph only points at functions that exist: once it is built,
/// every target `path::name` it lists is a file `path` that has a function
/// `name`.
pub proof fn law_call_targets_exist(m: CodeMapper, caller: Seq<char>, x: Seq<char>)
    requires
        as_map(m.calls_view()) == m.spec_call_graph(),
        as_map(m.calls_view()).contains_key(caller),
        as_map(m.calls_view())[caller].contains(x),
    ensures
        names_a_function(m.files_view(), x),
{
    lemma_call_graph_upto_exist(m.files_view(), m.files_view().len() as int);
}

} // verus!
