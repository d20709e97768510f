//! Reading sources into the analyser: each file's language, imports,
//! functions and line counts, then the graphs built from them.
use vstd::prelude::*;
use crate::mapper::{CodeMapper, file_entries, list_entries, distinct_keys, lemma_file_keys, lemma_list_keys, put};
use crate::model::{FileNode, FileView};
use crate::metrics::{MAX_TEXT_CHARS, metrics_of};
use crate::lang::{language_of_extension, parse_for};
use crate::table::{keys, as_map, lemma_as_map_push, lemma_as_map_update};
use crate::text::str_views;
use crate::model::clone_strings;
use crate::unicode::path_extension;

verus! {

/// What the analyser records for the source text `content` at `path`.
pub open spec fn source_file(path: Seq<char>, content: Seq<char>) -> FileView {
    let lang = language_of_extension(path_extension(path));
    let p = parse_for(content, lang);
    let m = metrics_of(content, lang);
    FileView {
        path,
        language: lang,
        imports: p.imports,
        functions: p.functions,
        total_lines: m.0,
        code_lines: m.1,
        comment_lines: m.2,
        blank_lines: m.3,
    }
}

/// The views of a list of `(path, content)` sources.
/// The keys `ks` with `k` added at the end unless present.
pub open spec fn key_added(ks: Seq<Seq<char>>, k: Seq<char>) -> Seq<Seq<char>> {
    if ks.contains(k) {
        ks
    } else {
        ks.push(k)
    }
}

/// The keys `ks` after adding the paths of the sources `srcs` in order.
pub open spec fn keys_after(ks: Seq<Seq<char>>, srcs: Seq<(Seq<char>, Seq<char>)>) -> Seq<Seq<char>>
    decreases srcs.len(),
{
    if srcs.len() == 0 {
        ks
    } else {
        key_added(keys_after(ks, srcs.drop_last()), srcs.last().0)
    }
}

pub open spec fn source_views(s: Seq<(String, String)>) -> Seq<(Seq<char>, Seq<char>)> {
    s.map_values(|e: (String, String)| (e.0@, e.1@))
}

/// The file table `m` after reading the sources `srcs` in order.
pub open spec fn files_after(m: Map<Seq<char>, FileView>, srcs: Seq<(Seq<char>, Seq<char>)>) -> Map<Seq<char>, FileView>
    decreases srcs.len(),
{
    if srcs.len() == 0 {
        m
    } else {
        files_after(m, srcs.drop_last()).insert(srcs.last().0, source_file(srcs.last().0, srcs.last().1))
    }
}

/// The import graph `m` after reading the sources `srcs` in order.
pub open spec fn graph_after(m: Map<Seq<char>, Seq<Seq<char>>>, srcs: Seq<(Seq<char>, Seq<char>)>) -> Map<
    Seq<char>,
    Seq<Seq<char>>,
>
    decreases srcs.len(),
{
    if srcs.len() == 0 {
        m
    } else {
        graph_after(m, srcs.drop_last()).insert(srcs.last().0, source_file(srcs.last().0, srcs.last().1).imports)
    }
}

impl CodeMapper {
    /// The import graph holds, for every file, exactly that file's imports.
    pub open spec fn graph_mirrors_files(&self) -> bool {
        as_map(self.graph_view()) == as_map(self.files_view()).map_values(|f: FileView| f.imports)
    }

    /// Records the analysed file `node` under `path`, and its imports in the
    /// import graph; an earlier record under `path` is replaced.
    pub fn insert_file(&mut self, path: String, node: FileNode)
        requires
            old(self).wf(),
        ensures
            final(self).wf(),
            as_map(final(self).files_view()) == as_map(old(self).files_view()).insert(path@, node@),
            as_map(final(self).graph_view()) == as_map(old(self).graph_view()).insert(path@, node@.imports),
            final(self).file_keys() == key_added(old(self).file_keys(), path@),
            keys(final(self).graph_view()) == key_added(keys(old(self).graph_view()), path@),
            final(self).reverse_graph == old(self).reverse_graph,
            final(self).call_graph == old(self).call_graph,
            old(self).graph_mirrors_files() ==> final(self).graph_mirrors_files(),
    {
        let ghost old_files = self.files@;
        let ghost old_graph = self.graph@;
        let ghost pv = path@;
        let ghost nv = node@;
        let imports = clone_strings(&node.imports);
        proof {
            lemma_file_keys(old_files);
            lemma_list_keys(old_graph);
        }
        match put(&mut self.files, path.clone(), node) {
            Some(i) => {
                assert(file_entries(self.files@) =~= file_entries(old_files).update(i as int, (file_entries(old_files)[i as int].0, nv)));
                proof {
                    lemma_as_map_update(file_entries(old_files), i as int, nv);
                    assert(keys(file_entries(old_files))[i as int] == pv);
                }
            },
            None => {
                assert(file_entries(self.files@) =~= file_entries(old_files).push((pv, nv)));
                proof {
                    lemma_as_map_push(file_entries(old_files), pv, nv);
                    assert(!keys(file_entries(old_files)).contains(pv)) by {
                        if keys(file_entries(old_files)).contains(pv) {
                            let k = choose|k: int| 0 <= k < keys(file_entries(old_files)).len() && keys(file_entries(old_files))[k] == pv;
                            assert(old_files[k].0@ == pv);
                        }
                    }
                }
            },
        }
        let ghost iv = str_views(imports@);
        match put(&mut self.graph, path, imports) {
            Some(i) => {
                assert(list_entries(self.graph@) =~= list_entries(old_graph).update(i as int, (list_entries(old_graph)[i as int].0, iv)));
                proof {
                    lemma_as_map_update(list_entries(old_graph), i as int, iv);
                    assert(keys(list_entries(old_graph))[i as int] == pv);
                }
            },
            None => {
                assert(list_entries(self.graph@) =~= list_entries(old_graph).push((pv, iv)));
                proof {
                    lemma_as_map_push(list_entries(old_graph), pv, iv);
                    assert(!keys(list_entries(old_graph)).contains(pv)) by {
                        if keys(list_entries(old_graph)).contains(pv) {
                            let k = choose|k: int| 0 <= k < keys(list_entries(old_graph)).len() && keys(list_entries(old_graph))[k] == pv;
                            assert(old_graph[k].0@ == pv);
                        }
                    }
                }
            },
        }
        proof {
            let before_files = as_map(file_entries(old_files));
            let before_graph = as_map(list_entries(old_graph));
            if before_graph == before_files.map_values(|f: FileView| f.imports) {
                assert(as_map(self.graph_view()) =~= as_map(self.files_view()).map_values(|f: FileView| f.imports));
            }
        }
    }

    /// Reads one source file: its language from the extension of `path`,
    /// its imports and functions from the parser of that language, and its
    /// line counts; records it under `path`.
    pub fn index_source(&mut self, path: &str, content: &str)
        requires
            old(self).wf(),
            content@.len() <= MAX_TEXT_CHARS,
        ensures
            final(self).wf(),
            as_map(final(self).files_view()) == as_map(old(self).files_view()).insert(
                path@,
                source_file(path@, content@),
            ),
            as_map(final(self).graph_view()) == as_map(old(self).graph_view()).insert(
                path@,
                source_file(path@, content@).imports,
            ),
            final(self).file_keys() == key_added(old(self).file_keys(), path@),
            keys(final(self).graph_view()) == key_added(keys(old(self).graph_view()), path@),
            final(self).reverse_graph == old(self).reverse_graph,
            final(self).call_graph == old(self).call_graph,
            old(self).graph_mirrors_files() ==> final(self).graph_mirrors_files(),
    {
        let lang = CodeMapper::detect_language(path);
        let (imports, functions) = CodeMapper::extract_imports_and_functions(content, lang.as_str(), path);
        let metrics = CodeMapper::compute_metrics(content, lang.as_str());
        let node = FileNode {
            path: path.to_owned(),
            language: lang,
            imports,
            functions,
            total_lines: metrics.0,
            code_lines: metrics.1,
            comment_lines: metrics.2,
            blank_lines: metrics.3,
        };
        assert(node@ == source_file(path@, content@));
        self.insert_file(path.to_owned(), node);
    }

    /// Reads the sources `(path, content)` in order, then builds the reverse
    /// graph and the call graph.
    pub fn scan_sources(&mut self, sources: &Vec<(String, String)>)
        requires
            old(self).wf(),
            forall|i: int| 0 <= i < sources@.len() ==> (#[trigger] sources@[i]).1@.len() <= MAX_TEXT_CHARS,
        ensures
            final(self).wf(),
            as_map(final(self).files_view()) == files_after(as_map(old(self).files_view()), source_views(sources@)),
            as_map(final(self).graph_view()) == graph_after(as_map(old(self).graph_view()), source_views(sources@)),
            final(self).file_keys() == keys_after(old(self).file_keys(), source_views(sources@)),
            keys(final(self).graph_view()) == keys_after(keys(old(self).graph_view()), source_views(sources@)),
            as_map(final(self).reverse_view()) == final(self).spec_reverse(),
            as_map(final(self).calls_view()) == final(self).spec_call_graph(),
            old(self).graph_mirrors_files() ==> final(self).graph_mirrors_files(),
    {
        let ghost sv = source_views(sources@);
        let ghost mirrored = self.graph_mirrors_files();
        let ghost f0 = as_map(self.files_view());
        let ghost g0 = as_map(self.graph_view());
        let ghost fk0 = self.file_keys();
        let ghost gk0 = keys(self.graph_view());
        let mut i: usize = 0;
        assert(sv.take(0) =~= Seq::<(Seq<char>, Seq<char>)>::empty());
        while i < sources.len()
            invariant
                sv == source_views(sources@),
                forall|i: int| 0 <= i < sources@.len() ==> (#[trigger] sources@[i]).1@.len() <= MAX_TEXT_CHARS,
                self.wf(),
                i <= sources@.len(),
                as_map(self.files_view()) == files_after(f0, sv.take(i as int)),
                as_map(self.graph_view()) == graph_after(g0, sv.take(i as int)),
                self.file_keys() == keys_after(fk0, sv.take(i as int)),
                keys(self.graph_view()) == keys_after(gk0, sv.take(i as int)),
                mirrored ==> self.graph_mirrors_files(),
            decreases sources@.len() - i,
        {
            assert(sv.take(i + 1).drop_last() =~= sv.take(i as int));
            assert(sv[i as int] == (sources@[i as int].0@, sources@[i as int].1@));
            self.index_source(sources[i].0.as_str(), sources[i].1.as_str());
            i += 1;
        }
        assert(sv.take(sources@.len() as int) =~= sv);
        self.build_reverse_graph();
        self.build_call_graph();
    }
}

} // verus!
