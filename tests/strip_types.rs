use oxc_strip_types::{
    check_spans, classify, replace_range, Action, Diagnostic, Node, NodeKind, Span, StripTypes,
    StripTypesImpl, StripTypesOptions, SyntaxTree,
};

fn node(kind: NodeKind, type_only: bool, start: u32, end: u32, subtree_end: usize) -> Node {
    Node { kind, type_only, span: Span::new(start, end), subtree_end }
}

fn strip_with(source: &str, filename: &str, replace_with_space: bool, tree: &SyntaxTree) -> String {
    let options = StripTypesOptions { replace_with_space };
    let st = StripTypes::new(source.to_string(), filename.to_string(), options);
    assert!(st.tree_fits(tree));
    let ret = st.strip(tree);
    assert!(ret.errors.is_empty());
    ret.code
}

// `const x: number = 1;`
fn const_annotated_tree() -> SyntaxTree {
    SyntaxTree {
        nodes: vec![
            node(NodeKind::Other, false, 0, 20, 7),
            node(NodeKind::Declaration, false, 0, 20, 7),
            node(NodeKind::Other, false, 6, 19, 7),
            node(NodeKind::Other, false, 6, 15, 6),
            node(NodeKind::TypeAnnotation, false, 7, 15, 6),
            node(NodeKind::TsType, false, 9, 15, 6),
            node(NodeKind::Other, false, 18, 19, 7),
        ],
    }
}

// `import type { A } from 'm';`
fn type_import_tree() -> SyntaxTree {
    SyntaxTree {
        nodes: vec![
            node(NodeKind::Other, false, 0, 27, 5),
            node(NodeKind::ImportDeclaration, true, 0, 27, 5),
            node(NodeKind::ImportSpecifier, false, 14, 15, 4),
            node(NodeKind::Other, false, 14, 15, 4),
            node(NodeKind::Other, false, 23, 26, 5),
        ],
    }
}

// `import { type A, B } from 'm';`
fn mixed_import_tree() -> SyntaxTree {
    SyntaxTree {
        nodes: vec![
            node(NodeKind::Other, false, 0, 30, 7),
            node(NodeKind::ImportDeclaration, false, 0, 30, 7),
            node(NodeKind::ImportSpecifier, true, 9, 15, 4),
            node(NodeKind::Other, false, 14, 15, 4),
            node(NodeKind::ImportSpecifier, false, 17, 18, 6),
            node(NodeKind::Other, false, 17, 18, 6),
            node(NodeKind::Other, false, 26, 29, 7),
        ],
    }
}

// `function f(): void {}`
fn function_return_tree() -> SyntaxTree {
    SyntaxTree {
        nodes: vec![
            node(NodeKind::Other, false, 0, 21, 6),
            node(NodeKind::Declaration, false, 0, 21, 6),
            node(NodeKind::Other, false, 9, 10, 3),
            node(NodeKind::TypeAnnotation, false, 12, 18, 5),
            node(NodeKind::TsType, false, 14, 18, 5),
            node(NodeKind::Other, false, 19, 21, 6),
        ],
    }
}

#[test]
fn annotation_is_blanked_in_place() {
    let out = strip_with("const x: number = 1;", "a.ts", true, &const_annotated_tree());
    assert_eq!(out, "const x         = 1;");
}

#[test]
fn type_only_import_is_blanked_whole() {
    let source = "import type { A } from 'm';";
    let out = strip_with(source, "a.ts", true, &type_import_tree());
    assert_eq!(out.len(), source.len());
    assert!(out.bytes().all(|b| b == b' '));
}

#[test]
fn type_only_specifier_is_blanked_alone() {
    let out = strip_with("import { type A, B } from 'm';", "a.ts", true, &mixed_import_tree());
    assert_eq!(out, "import {       , B } from 'm';");
}

#[test]
fn return_type_is_removed() {
    let out = strip_with("function f(): void {}", "a.ts", false, &function_return_tree());
    assert_eq!(out, "function f() {}");
}

#[test]
fn unsupported_extension_keeps_text() {
    let source = "const x: number = 1;";
    let st = StripTypes::new(source.to_string(), "notes.txt".to_string(), StripTypesOptions::default());
    let ret = st.strip(&SyntaxTree { nodes: vec![] });
    assert_eq!(ret.code, source);
    assert_eq!(ret.errors.len(), 1);
    match &ret.errors[0] {
        Diagnostic::UnsupportedSourceKind { message } => assert!(message.starts_with("Unsupported ")),
    }
    assert!(ret.errors[0].message().starts_with("Unsupported"));
}

#[test]
fn parse_reports_unknown_extension_once() {
    let mut st = StripTypes::new(String::new(), "file".to_string(), StripTypesOptions::default());
    assert!(st.parse().is_err());
    assert_eq!(st.errors.len(), 1);
    let mut ok = StripTypes::new(String::new(), "file.tsx".to_string(), StripTypesOptions::default());
    assert!(ok.parse().is_ok());
    assert!(ok.errors.is_empty());
}

#[test]
fn stripping_stripped_text_changes_nothing() {
    let once = strip_with("const x: number = 1;", "a.ts", true, &const_annotated_tree());
    let plain = SyntaxTree {
        nodes: vec![
            node(NodeKind::Other, false, 0, 20, 5),
            node(NodeKind::Declaration, false, 0, 20, 5),
            node(NodeKind::Other, false, 6, 19, 5),
            node(NodeKind::Other, false, 6, 7, 4),
            node(NodeKind::Other, false, 18, 19, 5),
        ],
    };
    let twice = strip_with(&once, "a.ts", true, &plain);
    assert_eq!(twice, once);
}

#[test]
fn space_fill_keeps_length_and_offsets() {
    let source = "let f = <T,>(a: T): T => a;";
    // generic parameters 8..12, annotation of `a` 14..17, return type 18..21
    let tree = SyntaxTree {
        nodes: vec![
            node(NodeKind::Other, false, 0, 27, 5),
            node(NodeKind::TypeParameterDeclaration, false, 8, 12, 3),
            node(NodeKind::Other, false, 9, 10, 3),
            node(NodeKind::TypeAnnotation, false, 14, 17, 4),
            node(NodeKind::TypeAnnotation, false, 18, 21, 5),
        ],
    };
    let out = strip_with(source, "a.ts", true, &tree);
    assert_eq!(out.len(), source.len());
    assert_eq!(out, "let f =     (a   )    => a;");
}

#[test]
fn removal_shrinks_by_span_lengths() {
    let source = "let f = <T,>(a: T): T => a;";
    let tree = SyntaxTree {
        nodes: vec![
            node(NodeKind::Other, false, 0, 27, 4),
            node(NodeKind::TypeParameterDeclaration, false, 8, 12, 2),
            node(NodeKind::TypeAnnotation, false, 14, 17, 3),
            node(NodeKind::TypeAnnotation, false, 18, 21, 4),
        ],
    };
    let out = strip_with(source, "a.ts", false, &tree);
    assert_eq!(out.len(), source.len() - (4 + 3 + 3));
    assert_eq!(out, "let f = (a) => a;");
}

#[test]
fn multibyte_text_survives() {
    let source = "let s: T = 'é';";
    let tree = SyntaxTree {
        nodes: vec![
            node(NodeKind::Other, false, 0, 16, 3),
            node(NodeKind::TypeAnnotation, false, 5, 8, 2),
            node(NodeKind::Other, false, 11, 15, 3),
        ],
    };
    assert_eq!(strip_with(source, "a.ts", true, &tree), "let s    = 'é';");
    assert_eq!(strip_with(source, "a.ts", false, &tree), "let s = 'é';");
}

#[test]
fn type_alias_and_type_export_are_erased() {
    let source = "type A = 1; export type { A }; export { b };";
    let tree = SyntaxTree {
        nodes: vec![
            node(NodeKind::Other, false, 0, 44, 6),
            node(NodeKind::Declaration, true, 0, 11, 3),
            node(NodeKind::TsType, false, 9, 10, 3),
            node(NodeKind::ExportNamedDeclaration, true, 12, 30, 4),
            node(NodeKind::ExportNamedDeclaration, false, 31, 44, 6),
            node(NodeKind::ExportSpecifier, false, 40, 41, 6),
        ],
    };
    let out = strip_with(source, "a.ts", false, &tree);
    assert_eq!(out, "  export { b };");
}

#[test]
fn type_export_specifier_is_erased() {
    let source = "export { type A, b };";
    let tree = SyntaxTree {
        nodes: vec![
            node(NodeKind::Other, false, 0, 21, 4),
            node(NodeKind::ExportNamedDeclaration, false, 0, 21, 4),
            node(NodeKind::ExportSpecifier, true, 9, 15, 3),
            node(NodeKind::ExportSpecifier, false, 17, 18, 4),
        ],
    };
    assert_eq!(strip_with(source, "a.ts", true, &tree), "export {       , b };");
}

#[test]
fn instantiation_is_erased() {
    let source = "f<number>(1);";
    let tree = SyntaxTree {
        nodes: vec![
            node(NodeKind::Other, false, 0, 13, 3),
            node(NodeKind::TypeParameterInstantiation, false, 1, 9, 3),
            node(NodeKind::TsType, false, 2, 8, 3),
        ],
    };
    assert_eq!(strip_with(source, "a.ts", false, &tree), "f(1);");
}

#[test]
fn classify_follows_the_rules() {
    let n = |kind, type_only| node(kind, type_only, 0, 0, 1);
    assert_eq!(classify(&n(NodeKind::TsType, false)), Action::Erase);
    assert_eq!(classify(&n(NodeKind::TypeAnnotation, false)), Action::Erase);
    assert_eq!(classify(&n(NodeKind::TypeParameterDeclaration, false)), Action::Erase);
    assert_eq!(classify(&n(NodeKind::TypeParameterInstantiation, false)), Action::Erase);
    assert_eq!(classify(&n(NodeKind::Declaration, true)), Action::Erase);
    assert_eq!(classify(&n(NodeKind::Declaration, false)), Action::Descend);
    assert_eq!(classify(&n(NodeKind::ImportDeclaration, false)), Action::Descend);
    assert_eq!(classify(&n(NodeKind::ExportNamedDeclaration, false)), Action::Descend);
    assert_eq!(classify(&n(NodeKind::ImportSpecifier, true)), Action::Erase);
    assert_eq!(classify(&n(NodeKind::ImportSpecifier, false)), Action::Skip);
    assert_eq!(classify(&n(NodeKind::ExportSpecifier, false)), Action::Skip);
    assert_eq!(classify(&n(NodeKind::Other, true)), Action::Descend);
}

#[test]
fn collector_records_in_walk_order() {
    let mut walker = StripTypesImpl::new(Vec::new(), StripTypesOptions::default());
    walker.visit_program(&mixed_import_tree());
    assert_eq!(walker.spans, vec![Span::new(9, 15)]);
    let mut walker = StripTypesImpl::new(Vec::new(), StripTypesOptions::default());
    walker.visit_program(&const_annotated_tree());
    assert_eq!(walker.spans, vec![Span::new(7, 15)]);
}

#[test]
fn build_and_replace_all() {
    let imp = StripTypesImpl::new(b"function f(): void {}".to_vec(), StripTypesOptions::default());
    assert_eq!(imp.build(&function_return_tree()), b"function f()       {}".to_vec());
    let mut imp = StripTypesImpl::new(b"abcdef".to_vec(), StripTypesOptions { replace_with_space: false });
    let n = node(NodeKind::TsType, false, 1, 2, 1);
    imp.push(&n);
    imp.push(&node(NodeKind::TsType, false, 3, 5, 1));
    imp.replace_all();
    assert_eq!(imp.code, b"acf".to_vec());
}

#[test]
fn replace_range_blanks_or_removes() {
    let text = b"hello world".to_vec();
    assert_eq!(replace_range(&text, Span::new(5, 11), false), b"hello".to_vec());
    assert_eq!(replace_range(&text, Span::new(0, 5), true), b"      world".to_vec());
    assert_eq!(replace_range(&text, Span::new(3, 3), true), text);
}

#[test]
fn check_spans_rejects_bad_sets() {
    assert!(check_spans(&vec![Span::new(0, 2), Span::new(2, 4)], "abcd", false));
    assert!(check_spans(&vec![], "", false));
    assert!(!check_spans(&vec![Span::new(2, 4), Span::new(0, 2)], "abcd", false));
    assert!(!check_spans(&vec![Span::new(0, 3), Span::new(2, 4)], "abcd", false));
    assert!(!check_spans(&vec![Span::new(3, 2)], "abcd", true));
    assert!(!check_spans(&vec![Span::new(0, 5)], "abcd", true));
    assert!(!check_spans(&vec![Span::new(0, 1)], "é", true));
}

#[test]
fn check_spans_takes_any_order_when_blanking() {
    assert!(check_spans(&vec![Span::new(2, 4), Span::new(0, 2)], "abcd", true));
    assert!(check_spans(&vec![Span::new(0, 3), Span::new(2, 4)], "abcd", true));
    assert!(check_spans(&vec![Span::new(0, 4), Span::new(1, 2)], "abcd", true));
}

#[test]
fn blanking_does_not_depend_on_span_order() {
    let mut a = StripTypesImpl::new(b"abcdefgh".to_vec(), StripTypesOptions::default());
    a.push(&node(NodeKind::TsType, false, 1, 3, 1));
    a.push(&node(NodeKind::TsType, false, 5, 7, 1));
    a.push(&node(NodeKind::TsType, false, 2, 4, 1));
    a.replace_all();
    let mut b = StripTypesImpl::new(b"abcdefgh".to_vec(), StripTypesOptions::default());
    b.push(&node(NodeKind::TsType, false, 2, 4, 1));
    b.push(&node(NodeKind::TsType, false, 1, 3, 1));
    b.push(&node(NodeKind::TsType, false, 5, 7, 1));
    b.replace_all();
    assert_eq!(a.code, b"a   e  h".to_vec());
    assert_eq!(a.code, b.code);
    assert_eq!(a.spans.len(), 3);
    assert!(a.options.replace_with_space);
}

#[test]
fn strip_blanks_spans_listed_out_of_order() {
    let source = "let a: A = 1; let b: B = 2;";
    // the later annotation is listed first
    let tree = SyntaxTree {
        nodes: vec![
            node(NodeKind::TypeAnnotation, false, 19, 22, 1),
            node(NodeKind::TypeAnnotation, false, 5, 8, 2),
        ],
    };
    let st = StripTypes::new(source.to_string(), "a.ts".to_string(), StripTypesOptions::default());
    assert!(st.tree_fits(&tree));
    let ret = st.strip(&tree);
    assert!(ret.errors.is_empty());
    assert_eq!(ret.code, "let a    = 1; let b    = 2;");
    let removing = StripTypes::new(
        source.to_string(),
        "a.ts".to_string(),
        StripTypesOptions { replace_with_space: false },
    );
    assert!(!removing.tree_fits(&tree));
}

#[test]
fn build_adds_to_recorded_spans() {
    let mut imp = StripTypesImpl::new(b"abcdef".to_vec(), StripTypesOptions { replace_with_space: false });
    imp.push(&node(NodeKind::TsType, false, 0, 1, 1));
    let plain = SyntaxTree { nodes: vec![node(NodeKind::Other, false, 0, 6, 1)] };
    assert_eq!(imp.build(&plain), b"bcdef".to_vec());
}

#[test]
fn tree_fits_rejects_out_of_range_tree() {
    let st = StripTypes::new("ab".to_string(), "a.ts".to_string(), StripTypesOptions::default());
    let bad = SyntaxTree { nodes: vec![node(NodeKind::TsType, false, 0, 3, 1)] };
    assert!(!st.tree_fits(&bad));
    let good = SyntaxTree { nodes: vec![node(NodeKind::TsType, false, 0, 2, 1)] };
    assert!(st.tree_fits(&good));
}

#[test]
fn default_options_fill_with_spaces() {
    assert!(StripTypesOptions::default().replace_with_space);
}
