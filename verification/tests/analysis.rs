use bakome_codemapper::lang::is_supported_extension;
use bakome_codemapper::{CodeMapper, FileNode, FunctionNode};

fn file(path: &str, imports: &[&str], functions: Vec<FunctionNode>) -> FileNode {
    FileNode {
        path: path.to_string(),
        language: "rust".to_string(),
        imports: imports.iter().map(|s| s.to_string()).collect(),
        functions,
        total_lines: 1,
        code_lines: 1,
        comment_lines: 0,
        blank_lines: 0,
    }
}

fn func(name: &str, calls: &[&str]) -> FunctionNode {
    FunctionNode {
        name: name.to_string(),
        start_line: 1,
        end_line: 1,
        calls: calls.iter().map(|s| s.to_string()).collect(),
        cyclomatic_complexity: 1,
    }
}

fn mapper_of(files: Vec<FileNode>) -> CodeMapper {
    let mut cm = CodeMapper::new();
    for f in files {
        let p = f.path.clone();
        cm.insert_file(p, f);
    }
    cm
}

fn strings(v: &[&str]) -> Vec<String> {
    v.iter().map(|s| s.to_string()).collect()
}

#[test]
fn dead_code_is_what_nothing_imports() {
    let mut cm = mapper_of(vec![
        file("src/a.rs", &["b"], vec![]),
        file("src/b.rs", &["a"], vec![]),
        file("src/c.rs", &[], vec![]),
    ]);
    cm.build_reverse_graph();
    assert_eq!(cm.dead_code(), strings(&["src/c.rs"]));
}

#[test]
fn reverse_graph_lists_importers() {
    let mut cm = mapper_of(vec![
        file("src/a.rs", &["c"], vec![]),
        file("src/b.rs", &["c", "c"], vec![]),
        file("src/c.rs", &[], vec![]),
    ]);
    cm.build_reverse_graph();
    let entry = cm.reverse_graph.iter().find(|(k, _)| k == "src/c.rs").unwrap();
    assert_eq!(entry.1, strings(&["src/a.rs", "src/b.rs", "src/b.rs"]));
    let entry_a = cm.reverse_graph.iter().find(|(k, _)| k == "src/a.rs").unwrap();
    assert!(entry_a.1.is_empty());
}

#[test]
fn two_files_importing_each_other_form_one_cycle() {
    let cm = mapper_of(vec![
        file("src/a.rs", &["b"], vec![]),
        file("src/b.rs", &["a"], vec![]),
    ]);
    assert_eq!(cm.detect_circular_deps(), vec![strings(&["src/a.rs", "src/b.rs"])]);
}

#[test]
fn a_self_import_is_a_cycle() {
    let cm = mapper_of(vec![file("src/a.rs", &["a"], vec![])]);
    assert_eq!(cm.detect_circular_deps(), vec![strings(&["src/a.rs"])]);
}

#[test]
fn an_acyclic_graph_has_no_cycle() {
    let cm = mapper_of(vec![
        file("src/a.rs", &["b", "c"], vec![]),
        file("src/b.rs", &["c"], vec![]),
        file("src/c.rs", &["std"], vec![]),
    ]);
    assert!(cm.detect_circular_deps().is_empty());
}

#[test]
fn a_longer_cycle_is_reported_from_where_it_closes() {
    let cm = mapper_of(vec![
        file("src/a.rs", &["b"], vec![]),
        file("src/b.rs", &["c"], vec![]),
        file("src/c.rs", &["b"], vec![]),
    ]);
    assert_eq!(cm.detect_circular_deps(), vec![strings(&["src/b.rs", "src/c.rs"])]);
}

#[test]
fn a_cycle_met_twice_is_reported_once() {
    let cm = mapper_of(vec![
        file("src/a.rs", &["b"], vec![]),
        file("src/b.rs", &["a", "a"], vec![]),
    ]);
    assert_eq!(cm.detect_circular_deps(), vec![strings(&["src/a.rs", "src/b.rs"])]);
}

#[test]
fn separate_cycles_come_in_walk_order() {
    let cm = mapper_of(vec![
        file("src/a.rs", &["b", "c"], vec![]),
        file("src/b.rs", &["a"], vec![]),
        file("src/c.rs", &["d"], vec![]),
        file("src/d.rs", &["c", "a"], vec![]),
    ]);
    assert_eq!(
        cm.detect_circular_deps(),
        vec![
            strings(&["src/a.rs", "src/b.rs"]),
            strings(&["src/c.rs", "src/d.rs"]),
            strings(&["src/a.rs", "src/c.rs", "src/d.rs"]),
        ]
    );
}

#[test]
fn orphans_are_files_without_imports() {
    let cm = mapper_of(vec![
        file("src/a.rs", &["b"], vec![]),
        file("src/b.rs", &[], vec![]),
        file("src/c.rs", &[], vec![]),
    ]);
    assert_eq!(cm.orphan_files(), strings(&["src/b.rs", "src/c.rs"]));
}

#[test]
fn most_connected_orders_by_imports_and_keeps_ten() {
    let mut files = Vec::new();
    for i in 0..12 {
        let imports: Vec<&str> = ["x", "y", "z"].iter().take(i % 4).cloned().collect();
        files.push(file(&format!("f{}.rs", i), &imports, vec![]));
    }
    let cm = mapper_of(files);
    let top = cm.most_connected_files();
    assert_eq!(top.len(), 10);
    let names: Vec<&str> = top.iter().map(|(p, _)| p.as_str()).collect();
    assert_eq!(
        names,
        vec!["f3.rs", "f7.rs", "f11.rs", "f2.rs", "f6.rs", "f10.rs", "f1.rs", "f5.rs", "f9.rs", "f0.rs"]
    );
    assert_eq!(top[0].1, 3);
    assert_eq!(top[9].1, 0);
}

#[test]
fn most_connected_with_few_files_lists_all() {
    let cm = mapper_of(vec![file("a.rs", &["x"], vec![]), file("b.rs", &["x", "y"], vec![])]);
    assert_eq!(cm.most_connected_files(), vec![("b.rs".to_string(), 2), ("a.rs".to_string(), 1)]);
}

#[test]
fn imports_resolve_by_stem_and_by_suffix() {
    let cm = mapper_of(vec![
        file("/proj/src/util.py", &[], vec![]),
        file("/proj/pkg/mod.rs", &[], vec![]),
        file("/proj/lib/helpers.c", &[], vec![]),
    ]);
    assert_eq!(cm.find_file_by_import("util"), Some("/proj/src/util.py".to_string()));
    assert_eq!(cm.find_file_by_import("pkg/mod"), Some("/proj/pkg/mod.rs".to_string()));
    assert_eq!(cm.find_file_by_import("lib/helpers"), Some("/proj/lib/helpers.c".to_string()));
    assert_eq!(cm.find_file_by_import("nothing"), None);
}

#[test]
fn call_graph_prefers_the_same_file() {
    let mut cm = mapper_of(vec![
        file("x.rs", &[], vec![func("f", &["g", "h", "missing"]), func("g", &[])]),
        file("y.rs", &[], vec![func("h", &[]), func("g", &[])]),
    ]);
    cm.build_call_graph();
    let f = cm.call_graph.iter().find(|(k, _)| k == "x.rs::f").unwrap();
    assert_eq!(f.1, strings(&["x.rs::g", "y.rs::h"]));
    assert_eq!(cm.call_graph.len(), 4);
}

#[test]
fn insert_file_replaces_an_earlier_record() {
    let mut cm = mapper_of(vec![file("a.rs", &["b"], vec![])]);
    cm.insert_file("a.rs".to_string(), file("a.rs", &["c"], vec![]));
    assert_eq!(cm.files.len(), 1);
    assert_eq!(cm.graph.len(), 1);
    assert_eq!(cm.graph[0].1, strings(&["c"]));
}

#[test]
fn scan_sources_reads_and_links_files() {
    let mut cm = CodeMapper::new();
    let sources = vec![
        ("proj/main.py".to_string(), "import helpers\n\ndef run():\n    helpers.go()\n".to_string()),
        ("proj/helpers.py".to_string(), "# tools\ndef go():\n    return 1\n".to_string()),
        ("proj/notes.txt".to_string(), "hello".to_string()),
    ];
    cm.scan_sources(&sources);
    assert_eq!(cm.files.len(), 3);
    let main = &cm.files[0].1;
    assert_eq!(main.language, "python");
    assert_eq!(main.imports, strings(&["helpers"]));
    assert_eq!(main.functions.len(), 1);
    assert_eq!(main.functions[0].name, "run");
    assert_eq!(main.total_lines, 4);
    assert_eq!(main.blank_lines, 1);
    let helpers = &cm.files[1].1;
    assert_eq!(helpers.comment_lines, 1);
    assert_eq!(helpers.code_lines, 2);
    assert_eq!(cm.files[2].1.language, "unknown");
    assert_eq!(cm.dead_code(), strings(&["proj/main.py", "proj/notes.txt"]));
    assert_eq!(cm.call_graph.len(), 2);
    let run = cm.call_graph.iter().find(|(k, _)| k == "proj/main.py::run").unwrap();
    assert_eq!(run.1, strings(&["proj/helpers.py::go"]));
}

#[test]
fn call_graph_across_files_after_a_scan() {
    let mut cm = CodeMapper::new();
    let sources = vec![
        ("dir/a.rs".to_string(), "fn main() {\n    helper();\n}".to_string()),
        ("dir/b.rs".to_string(), "fn helper() {\n}".to_string()),
    ];
    cm.scan_sources(&sources);
    let main = cm.call_graph.iter().find(|(k, _)| k == "dir/a.rs::main").unwrap();
    assert_eq!(main.1, strings(&["dir/b.rs::helper"]));
    let helper = cm.call_graph.iter().find(|(k, _)| k == "dir/b.rs::helper").unwrap();
    assert!(helper.1.is_empty());
}

#[test]
fn report_totals_and_lists() {
    let mut cm = CodeMapper::new();
    let sources = vec![
        ("a.rs".to_string(), "use b;\nfn x() {\n}\n".to_string()),
        ("b.rs".to_string(), "use a;\n".to_string()),
    ];
    cm.scan_sources(&sources);
    assert!(cm.totals_fit());
    let r = cm.generate_report();
    assert_eq!(r.total_files, 2);
    assert_eq!(r.total_lines, 4);
    assert_eq!(r.total_functions, 1);
    assert!(r.dead_code.is_empty());
    assert!(r.orphan_files.is_empty());
    assert_eq!(r.circular_deps, vec![strings(&["a.rs", "b.rs"])]);
    assert_eq!(r.most_connected_files.len(), 2);
}

#[test]
fn supported_extensions() {
    for e in ["rs", "py", "js", "ts", "jsx", "tsx", "mq5", "c", "cpp", "h", "hpp"] {
        assert!(is_supported_extension(e));
    }
    assert!(!is_supported_extension("txt"));
    assert!(!is_supported_extension("cc"));
    assert!(!is_supported_extension(""));
}

#[test]
fn languages_follow_extensions() {
    assert_eq!(CodeMapper::detect_language("src/a.rs"), "rust");
    assert_eq!(CodeMapper::detect_language("x.py"), "python");
    assert_eq!(CodeMapper::detect_language("x.jsx"), "javascript");
    assert_eq!(CodeMapper::detect_language("x.tsx"), "typescript");
    assert_eq!(CodeMapper::detect_language("x.mq5"), "mql5");
    assert_eq!(CodeMapper::detect_language("x.c"), "c");
    assert_eq!(CodeMapper::detect_language("x.cc"), "cpp");
    assert_eq!(CodeMapper::detect_language("x.hpp"), "header");
    assert_eq!(CodeMapper::detect_language("x.txt"), "unknown");
    assert_eq!(CodeMapper::detect_language("Makefile"), "unknown");
}
