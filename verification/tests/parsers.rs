use bakome_codemapper::CodeMapper;

fn chars(s: &str) -> Vec<char> {
    s.chars().collect()
}

#[test]
fn rust_multi_line_function_ends_where_braces_close() {
    let code = "fn foo() {\n    let a = 1;\n    if a > 0 && a < 2 { }\n}\n";
    let (imports, functions) = CodeMapper::parse_rust(code, "x.rs");
    assert!(imports.is_empty());
    assert_eq!(functions.len(), 1);
    assert_eq!(functions[0].name, "foo");
    assert_eq!(functions[0].start_line, 1);
    assert_eq!(functions[0].end_line, 4);
    assert_eq!(functions[0].cyclomatic_complexity, 3);
    assert!(functions[0].calls.is_empty());
}

#[test]
fn rust_complexity_counts_every_line_of_the_function() {
    let code = "fn f() {\n    let x = if a { 1 } else { 2 }; }\n";
    let (_, functions) = CodeMapper::parse_rust(code, "x.rs");
    assert_eq!(functions.len(), 1);
    assert_eq!(functions[0].end_line, 2);
    assert_eq!(functions[0].cyclomatic_complexity, 2);
}

#[test]
fn rust_calls_are_identifiers_before_a_parenthesis() {
    let code = "fn main() {\n    helper();\n}";
    let (_, functions) = CodeMapper::parse_rust(code, "a.rs");
    assert_eq!(functions.len(), 1);
    assert_eq!(functions[0].name, "main");
    assert_eq!(functions[0].start_line, 1);
    assert_eq!(functions[0].end_line, 3);
    assert_eq!(functions[0].calls, vec!["helper".to_string()]);
}

#[test]
fn rust_calls_come_once_in_first_seen_order() {
    let code = "fn run() {\n    let v = b(a(1), x.c());\n    a (2); a(3); println!(\"{}\", d_2(v));\n}\n";
    let (_, functions) = CodeMapper::parse_rust(code, "a.rs");
    assert_eq!(functions.len(), 1);
    assert_eq!(
        functions[0].calls,
        vec!["b".to_string(), "a".to_string(), "c".to_string(), "d_2".to_string()]
    );
}

#[test]
fn rust_complexity_sums_the_decision_points_of_the_body() {
    let code = "fn f() {\n    if a && b {\n    }\n}";
    let (_, functions) = CodeMapper::parse_rust(code, "a.rs");
    assert_eq!(functions.len(), 1);
    assert_eq!(functions[0].start_line, 1);
    assert_eq!(functions[0].end_line, 4);
    assert_eq!(functions[0].cyclomatic_complexity, 3);
}

#[test]
fn python_calls_are_recorded() {
    let code = "def f():\n    g(1)\n    return h(2)";
    let (_, functions) = CodeMapper::parse_python(code);
    assert_eq!(functions.len(), 1);
    assert_eq!(functions[0].name, "f");
    assert_eq!(functions[0].start_line, 1);
    assert_eq!(functions[0].end_line, 3);
    assert_eq!(functions[0].calls, vec!["g".to_string(), "h".to_string()]);
}

#[test]
fn rust_imports_use_and_mod() {
    let code = "use crate::a::b;\nmod utils;\nmod inner {\n}\npub fn hidden() {}\n";
    let (imports, functions) = CodeMapper::parse_rust(code, "x.rs");
    assert_eq!(imports, vec!["crate".to_string(), "utils".to_string(), "inner ".to_string()]);
    assert!(functions.is_empty());
}

#[test]
fn python_bodies_end_at_the_first_shallower_line() {
    let code = "def a():\n    x = 1\n\n    import os\ndef b(y):\n    return y\nimport sys\n";
    let (imports, functions) = CodeMapper::parse_python(code);
    assert_eq!(imports, vec!["sys".to_string()]);
    assert_eq!(functions.len(), 2);
    assert_eq!(functions[0].name, "a");
    assert_eq!(functions[0].start_line, 1);
    assert_eq!(functions[0].end_line, 4);
    assert_eq!(functions[1].name, "b");
    assert_eq!(functions[1].start_line, 5);
    assert_eq!(functions[1].end_line, 6);
}

#[test]
fn javascript_requires_and_arrow_functions() {
    let code = "const fs = require('fs');\nimport x from \"./lib\";\nconst add = (a, b) => a + b;\nif (ok) => 1\nlet f = function() {}";
    let (imports, functions) = CodeMapper::parse_js_ts(code);
    assert_eq!(imports, vec!["fs".to_string(), "./lib".to_string()]);
    let names: Vec<&str> = functions.iter().map(|f| f.name.as_str()).collect();
    assert_eq!(names, vec!["const add", "let f"]);
    assert_eq!(functions[0].start_line, 3);
    assert_eq!(functions[1].end_line, 5);
}

#[test]
fn mql5_includes_and_declarations() {
    let code = "#include <Trade\\Trade.mqh>\n#import \"user32.dll\"\nvoid OnTick() {\nint x = f(1);\ndouble Price(int a);";
    let (imports, functions) = CodeMapper::parse_mql5(code);
    assert_eq!(imports, vec!["Trade\\Trade.mqh".to_string(), "user32.dll".to_string()]);
    let names: Vec<&str> = functions.iter().map(|f| f.name.as_str()).collect();
    assert_eq!(names, vec!["OnTick", "Price"]);
}

#[test]
fn c_declarations_without_semicolon() {
    let code = "#include \"util.h\"\n#include <stdio.h>\nint main(void) {\nint foo(int);\nstatic int hidden(void) {\nunsigned long count(void)\n";
    let (imports, functions) = CodeMapper::parse_c_family(code);
    assert_eq!(imports, vec!["util.h".to_string(), "stdio.h".to_string()]);
    let names: Vec<&str> = functions.iter().map(|f| f.name.as_str()).collect();
    assert_eq!(names, vec!["main"]);
}

#[test]
fn dispatch_by_language() {
    let (i, _) = CodeMapper::extract_imports_and_functions("#include <a.h>", "header", "a.h");
    assert_eq!(i, vec!["a.h".to_string()]);
    let (i, f) = CodeMapper::extract_imports_and_functions("use x;", "unknown", "a.txt");
    assert!(i.is_empty() && f.is_empty());
    let (i, _) = CodeMapper::extract_imports_and_functions("import os", "python", "a.py");
    assert_eq!(i, vec!["os".to_string()]);
}

#[test]
fn metrics_count_each_line_once() {
    let rust = "// note\n/* start\n   still */\n\nfn a() {}\n";
    assert_eq!(CodeMapper::compute_metrics(rust, "rust"), (5, 1, 3, 1));
    let py = "# c\nx = 1\n\n";
    assert_eq!(CodeMapper::compute_metrics(py, "python"), (3, 1, 1, 1));
    let other = "// not a comment here\n";
    assert_eq!(CodeMapper::compute_metrics(other, "unknown"), (1, 1, 0, 0));
    assert_eq!(CodeMapper::compute_metrics("", "rust"), (0, 0, 0, 0));
    assert_eq!(CodeMapper::compute_metrics("a\r\nb", "rust"), (2, 2, 0, 0));
}

#[test]
fn complexity_counts_keywords_and_operators() {
    assert_eq!(CodeMapper::cyclomatic_complexity_approx(&chars("if a && b || c")), 4);
    assert_eq!(CodeMapper::cyclomatic_complexity_approx(&chars("while x { match y { } } for i in 0..n")), 4);
    assert_eq!(CodeMapper::cyclomatic_complexity_approx(&chars("&&&")), 2);
    assert_eq!(CodeMapper::cyclomatic_complexity_approx(&chars("")), 1);
}

#[test]
fn tokens_are_lowercased_and_longer_than_one_byte() {
    let t = CodeMapper::tokenize("Hello WORLD, a b_c é 42");
    assert_eq!(t, vec!["hello".to_string(), "world".to_string(), "é".to_string(), "42".to_string()]);
    assert!(CodeMapper::tokenize("").is_empty());
}

#[test]
fn tokens_of_a_title_and_body_joined_by_a_space() {
    let title = "Fix Leak";
    let body = "in the ALLOCATOR";
    let joined = CodeMapper::tokenize(&format!("{} {}", title, body));
    let mut parts = CodeMapper::tokenize(title);
    parts.extend(CodeMapper::tokenize(body));
    assert_eq!(joined, parts);
    assert_eq!(joined, vec!["fix", "leak", "in", "the", "allocator"]);
}

#[test]
fn cosine_terms_count_shared_and_repeated_tokens() {
    let a: Vec<String> = vec!["x".into(), "y".into(), "x".into()];
    let b: Vec<String> = vec!["x".into(), "z".into()];
    assert_eq!(CodeMapper::cosine_terms(&a, &b), (2, 5, 2));
    assert_eq!(CodeMapper::cosine_terms(&b, &a), (2, 2, 5));
    assert_eq!(CodeMapper::cosine_terms(&vec![], &b), (0, 0, 2));
    let c: Vec<String> = vec!["w".into()];
    assert_eq!(CodeMapper::cosine_terms(&a, &c).0, 0);
}

fn toks(v: &[&str]) -> Vec<String> {
    v.iter().map(|s| s.to_string()).collect()
}

#[test]
fn term_frequencies_in_order_of_first_occurrence() {
    let tf = CodeMapper::term_frequencies(&toks(&["b", "a", "b", "c", "b"]));
    assert_eq!(tf, vec![("b".to_string(), 3), ("a".to_string(), 1), ("c".to_string(), 1)]);
    assert!(CodeMapper::term_frequencies(&vec![]).is_empty());
}

#[test]
fn document_frequencies_count_documents_not_occurrences() {
    let docs = vec![toks(&["x", "y", "x"]), toks(&["y"]), toks(&[])];
    let df = CodeMapper::document_frequencies(&docs, &toks(&["x", "y", "z"]));
    assert_eq!(df, vec![1, 2, 0]);
}

#[test]
fn cosine_terms_ignore_order_and_obey_cauchy_schwarz() {
    let a = toks(&["p", "q", "p", "r"]);
    let a2 = toks(&["r", "p", "p", "q"]);
    let b = toks(&["q", "p", "s"]);
    let (d1, na, nb) = CodeMapper::cosine_terms(&a, &b);
    let (d2, _, _) = CodeMapper::cosine_terms(&a2, &b);
    assert_eq!(d1, d2);
    assert_eq!(d1, 3);
    assert!(d1 * d1 <= na * nb);
}

#[test]
fn unicode_white_space_is_trimmed() {
    assert_eq!(CodeMapper::compute_metrics("\u{00A0}\u{3000}\n\u{2003}x", "rust"), (2, 1, 0, 1));
}
