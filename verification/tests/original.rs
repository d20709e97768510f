use bakome_codemapper::{CodeMapper, FileNode};

#[test]
fn test_parse_rust() {
    let code = "use std::collections::HashMap;\nfn main() { let x = 1; }";
    let (imports, functions) = CodeMapper::parse_rust(code, "test.rs");
    assert!(imports.contains(&"std".to_string()));
    assert_eq!(functions.len(), 1);
    assert_eq!(functions[0].name, "main");
}

#[test]
fn test_parse_python() {
    let code = "import os\nfrom sys import path\ndef hello():\n    print('hi')\n    return True";
    let (imports, functions) = CodeMapper::parse_python(code);
    assert!(imports.contains(&"os".to_string()));
    assert!(imports.contains(&"sys".to_string()));
    assert_eq!(functions.len(), 1);
    assert_eq!(functions[0].name, "hello");
}

#[test]
fn test_parse_js() {
    let code = "import React from 'react';\nfunction App() { return <div/>; }";
    let (imports, functions) = CodeMapper::parse_js_ts(code);
    assert!(imports.contains(&"react".to_string()));
    assert_eq!(functions.len(), 1);
    assert_eq!(functions[0].name, "App");
}

#[test]
fn test_dead_code() {
    let mut cm = CodeMapper::new();
    cm.insert_file(
        "main.rs".into(),
        FileNode {
            path: "main.rs".into(),
            language: "rust".into(),
            imports: vec!["lib".into()],
            functions: vec![],
            total_lines: 10,
            code_lines: 8,
            comment_lines: 1,
            blank_lines: 1,
        },
    );
    cm.insert_file(
        "lib.rs".into(),
        FileNode {
            path: "lib.rs".into(),
            language: "rust".into(),
            imports: vec![],
            functions: vec![],
            total_lines: 5,
            code_lines: 4,
            comment_lines: 0,
            blank_lines: 1,
        },
    );
    cm.build_reverse_graph();
    let dead = cm.dead_code();
    assert!(dead.contains(&"main.rs".to_string()));
    assert!(!dead.contains(&"lib.rs".to_string()));
}

#[test]
fn test_tokenize() {
    let tokens = CodeMapper::tokenize("hello world, this is a test");
    assert!(tokens.contains(&"hello".to_string()));
    assert!(tokens.contains(&"world".to_string()));
    assert!(tokens.contains(&"this".to_string()));
    assert!(tokens.contains(&"test".to_string()));
}
