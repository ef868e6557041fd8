use skimdiff::index::{
    is_declaration_kind, is_identifier_kind, language_for, SourceLanguage, SymbolIndex, SymbolRef,
    SyntaxNode,
};
use skimdiff::syntax::syntax_nodes;
use skimdiff::usages::rank_usages;

fn files(list: &[(&str, &str)]) -> Vec<(String, String)> {
    list.iter().map(|(p, s)| (p.to_string(), s.to_string())).collect()
}

#[test]
fn java_declarations_and_references() {
    let idx = SymbolIndex::build(&files(&[(
        "Foo.java",
        "class Foo {\n    void bar() {}\n    void baz() {\n        bar();\n    }\n}\n",
    )]));
    let hit = idx.lookup("bar");
    assert_eq!(hit.declarations.len(), 1, "one declaration of bar");
    assert_eq!(hit.declarations[0].line, 2);
    assert_eq!(hit.declarations[0].path, "Foo.java");
    assert_eq!(hit.references.len(), 1, "one call site");
    assert_eq!(hit.references[0].line, 4);

    let class_hit = idx.lookup("Foo");
    assert_eq!(class_hit.declarations.len(), 1);
    assert_eq!(class_hit.declarations[0].line, 1);
}

#[test]
fn kotlin_functions_resolve() {
    let idx = SymbolIndex::build(&files(&[(
        "app.kt",
        "fun greet() {}\n\nfun main() {\n    greet()\n}\n",
    )]));
    let hit = idx.lookup("greet");
    assert_eq!(hit.declarations.len(), 1);
    assert_eq!(hit.declarations[0].line, 1);
    assert_eq!(hit.references.len(), 1);
    assert_eq!(hit.references[0].line, 4);
}

#[test]
fn strings_and_comments_are_not_references() {
    let idx = SymbolIndex::build(&files(&[(
        "S.java",
        "class S {\n    // bar is mentioned here\n    String s = \"bar\";\n    void bar() {}\n}\n",
    )]));
    let hit = idx.lookup("bar");
    assert_eq!(hit.declarations.len(), 1);
    assert!(
        hit.references.is_empty(),
        "comment/string mentions must not count: {:?}",
        hit.references
    );
}

#[test]
fn unknown_symbol_is_empty_and_cross_file_refs_found() {
    let idx = SymbolIndex::build(&files(&[
        ("A.java", "class A {\n    void hit() {}\n}\n"),
        ("B.java", "class B {\n    void go(A a) {\n        a.hit();\n    }\n}\n"),
    ]));
    assert!(idx.lookup("nope").declarations.is_empty());
    assert!(idx.lookup("nope").references.is_empty());

    let hit = idx.lookup("hit");
    assert_eq!(hit.declarations.len(), 1);
    assert_eq!(hit.declarations[0].path, "A.java");
    assert_eq!(hit.references.len(), 1);
    assert_eq!(hit.references[0].path, "B.java");
    // reference context carries the source line for preview
    assert!(hit.references[0].context.contains("a.hit()"));
}

#[test]
fn rebuild_reflects_edits() {
    let idx = SymbolIndex::build(&files(&[("A.java", "class A {\n    void hit() {}\n}\n")]));
    assert_eq!(idx.lookup("hit").declarations.len(), 1);

    let idx = SymbolIndex::build(&files(&[("A.java", "class A {\n    void miss() {}\n}\n")]));
    assert!(idx.lookup("hit").declarations.is_empty());
    assert_eq!(idx.lookup("miss").declarations.len(), 1);
}

#[test]
fn unsupported_files_are_skipped() {
    let idx = SymbolIndex::build(&files(&[("notes.txt", "class A { void hit() {} }\n")]));
    assert!(idx.lookup("hit").declarations.is_empty());
    assert!(idx.lookup("A").declarations.is_empty());
}

#[test]
fn python_go_and_typescript_are_indexed() {
    let idx = SymbolIndex::build(&files(&[
        ("m.py", "def area(r):\n    return r\n\nprint(area(2))\n"),
        ("m.go", "package m\n\nfunc Area() int { return 1 }\n\nfunc use() int { return Area() }\n"),
        ("m.ts", "function total(): number { return 1; }\nconst t = total();\n"),
    ]));
    let py = idx.lookup("area");
    assert_eq!(py.declarations.len(), 1);
    assert_eq!(py.declarations[0].line, 1);
    assert_eq!(py.references.len(), 1);
    assert_eq!(py.references[0].line, 4);
    let go = idx.lookup("Area");
    assert_eq!(go.declarations.len(), 1);
    assert_eq!(go.declarations[0].line, 3);
    assert_eq!(go.references.len(), 1);
    assert_eq!(go.references[0].line, 5);
    let ts = idx.lookup("total");
    assert_eq!(ts.declarations.len(), 1);
    assert_eq!(ts.references.len(), 1);
    assert_eq!(ts.references[0].line, 2);
}

#[test]
fn reference_positions_and_context() {
    let idx = SymbolIndex::build(&files(&[(
        "C.java",
        "class C {\n    void f() {}\n    void g() {\n        f();\n    }\n}\n",
    )]));
    let hit = idx.lookup("f");
    assert_eq!(hit.references.len(), 1);
    let r = &hit.references[0];
    assert_eq!((r.line, r.col), (4, 8));
    assert_eq!(r.context, "f();");
    assert_eq!(hit.declarations[0].context, "void f() {}");
}

#[test]
fn language_for_maps_extensions() {
    assert_eq!(language_for("a/B.java"), Some(SourceLanguage::Java));
    assert_eq!(language_for("x.kt"), Some(SourceLanguage::Kotlin));
    assert_eq!(language_for("build.gradle.kts"), Some(SourceLanguage::Kotlin));
    assert_eq!(language_for("main.go"), Some(SourceLanguage::Go));
    assert_eq!(language_for("a.py"), Some(SourceLanguage::Python));
    assert_eq!(language_for("a.mjs"), Some(SourceLanguage::JavaScript));
    assert_eq!(language_for("a.jsx"), Some(SourceLanguage::JavaScript));
    assert_eq!(language_for("a.ts"), Some(SourceLanguage::TypeScript));
    assert_eq!(language_for("a.tsx"), Some(SourceLanguage::Tsx));
    assert_eq!(language_for("A.JAVA"), Some(SourceLanguage::Java));
    assert_eq!(language_for("README.md"), None);
    assert_eq!(language_for("java"), Some(SourceLanguage::Java));
    assert_eq!(language_for("Makefile"), None);
}

#[test]
fn identifier_and_declaration_kinds() {
    assert!(is_identifier_kind("identifier"));
    assert!(is_identifier_kind("type_identifier"));
    assert!(is_identifier_kind("shorthand_property_identifier"));
    assert!(!is_identifier_kind("string_literal"));
    assert!(!is_identifier_kind("comment"));
    assert!(is_declaration_kind("method_declaration"));
    assert!(is_declaration_kind("function_definition"));
    assert!(is_declaration_kind("variable_declarator"));
    assert!(is_declaration_kind("type_spec"));
    assert!(!is_declaration_kind("method_invocation"));
    assert!(!is_declaration_kind("type_specifier"));
}

#[test]
fn visit_records_declarations_and_references() {
    let mut idx = SymbolIndex::new();
    let lines = vec!["  int x = y;  ".to_string()];
    let decl = SyntaxNode {
        kind: "identifier".to_string(),
        text: Some("x".to_string()),
        row: 0,
        column: 6,
        parent_kind: Some("variable_declarator".to_string()),
        names_parent: true,
    };
    let reference = SyntaxNode {
        kind: "identifier".to_string(),
        text: Some("y".to_string()),
        row: 0,
        column: 10,
        parent_kind: Some("variable_declarator".to_string()),
        names_parent: false,
    };
    let keyword = SyntaxNode {
        kind: "int".to_string(),
        text: Some("int".to_string()),
        row: 0,
        column: 2,
        parent_kind: None,
        names_parent: false,
    };
    let past_end = SyntaxNode {
        kind: "identifier".to_string(),
        text: Some("z".to_string()),
        row: 7,
        column: 0,
        parent_kind: None,
        names_parent: false,
    };
    idx.index_nodes("F.java", &lines, &vec![decl, reference, keyword, past_end]);
    let x = idx.lookup("x");
    assert_eq!(x.declarations.len(), 1);
    assert!(x.references.is_empty());
    assert_eq!(x.declarations[0].line, 1);
    assert_eq!(x.declarations[0].col, 6);
    assert_eq!(x.declarations[0].context, "int x = y;");
    let y = idx.lookup("y");
    assert!(y.declarations.is_empty());
    assert_eq!(y.references.len(), 1);
    assert!(idx.lookup("int").references.is_empty());
    let z = idx.lookup("z");
    assert_eq!(z.references[0].line, 8);
    assert_eq!(z.references[0].context, "");
}

#[test]
fn visit_wraps_line_past_u32() {
    let mut idx = SymbolIndex::new();
    let node = SyntaxNode {
        kind: "identifier".to_string(),
        text: Some("w".to_string()),
        row: u32::MAX as usize,
        column: 3,
        parent_kind: None,
        names_parent: false,
    };
    idx.visit("W.java", &vec![], &node);
    assert_eq!(idx.lookup("w").references[0].line, 0);
}

#[test]
fn syntax_nodes_reads_identifiers_in_preorder() {
    let nodes = syntax_nodes(SourceLanguage::Java, "class K { void m() { n(); } }\n", "name").unwrap();
    let names: Vec<&str> = nodes.iter().map(|n| n.text.as_deref().unwrap()).collect();
    assert_eq!(names, vec!["K", "m", "n"]);
    assert!(nodes.iter().all(|n| is_identifier_kind(&n.kind)));
    assert!(nodes[1].names_parent);
    assert_eq!(nodes[1].parent_kind.as_deref(), Some("method_declaration"));
    // a call also fills a `name` field, of a node that declares nothing
    assert!(nodes[2].names_parent);
    assert_eq!(nodes[2].parent_kind.as_deref(), Some("method_invocation"));
    assert_eq!(nodes[1].column, 15);
}

fn sref(path: &str, line: u32, col: u32) -> SymbolRef {
    SymbolRef { path: path.to_string(), line, col, context: String::new() }
}

#[test]
fn usages_in_changed_files_rank_first() {
    let mut refs = vec![
        sref("b.java", 9, 0),
        sref("a.java", 3, 0),
        sref("c.java", 1, 0),
        sref("a.java", 1, 5),
        sref("c.java", 1, 2),
        sref("a.java", 1, 4),
    ];
    rank_usages(&mut refs, &vec!["c.java".to_string()]);
    let order: Vec<(&str, u32, u32)> =
        refs.iter().map(|r| (r.path.as_str(), r.line, r.col)).collect();
    assert_eq!(
        order,
        vec![
            ("c.java", 1, 0),
            ("c.java", 1, 2),
            ("a.java", 1, 5),
            ("a.java", 1, 4),
            ("a.java", 3, 0),
            ("b.java", 9, 0),
        ]
    );
}

#[test]
fn ranking_orders_paths_by_characters() {
    let mut refs = vec![sref("ab", 1, 0), sref("a", 1, 0), sref("B", 1, 0), sref("", 1, 0)];
    rank_usages(&mut refs, &vec![]);
    let order: Vec<&str> = refs.iter().map(|r| r.path.as_str()).collect();
    assert_eq!(order, vec!["", "B", "a", "ab"]);
}

#[test]
fn files_without_a_grammar_change_no_lookup() {
    let a = ("A.java", "class A {\n    void hit() {}\n}\n");
    let b = ("app.kt", "fun greet() {}\n\nfun main() {\n    greet()\n    hit()\n}\n");
    let txt = ("notes.txt", "greet hit A\n");
    let with_all = SymbolIndex::build(&files(&[a, txt, b]));
    let supported = SymbolIndex::build(&files(&[a, b]));
    for name in ["A", "hit", "greet", "main", "notes"] {
        assert_eq!(
            format!("{:?}", with_all.lookup(name)),
            format!("{:?}", supported.lookup(name))
        );
    }
    assert_eq!(with_all.lookup("hit").declarations.len(), 1);
    assert_eq!(with_all.lookup("hit").references.len(), 1);
}

#[test]
fn listed_symbols_lie_in_their_files() {
    let list = [
        ("A.java", "class A {\n    void hit() {}\n}\n"),
        ("B.java", "class B {\n    void go(A a) {\n        a.hit();\n    }\n}\n"),
    ];
    let idx = SymbolIndex::build(&files(&list));
    for name in ["A", "B", "hit", "go", "a"] {
        let l = idx.lookup(name);
        assert!(!(l.declarations.is_empty() && l.references.is_empty()));
        for r in l.declarations.iter().chain(l.references.iter()) {
            let (_, text) = list.iter().find(|(p, _)| *p == r.path).unwrap();
            let line = text.lines().nth(r.line as usize - 1).unwrap();
            assert_eq!(r.context, line.trim());
            assert!(line[r.col as usize..].starts_with(name));
        }
    }
}
