use scopegrep::report::process_file;
use scopegrep::tree::{Node, NodeKind, Tree};

fn node(
    kind: NodeKind,
    start: usize,
    end: usize,
    parent: Option<usize>,
    children: Vec<usize>,
    name_child: Option<usize>,
) -> Node {
    Node { kind, start, end, parent, children, name_child }
}

/// `def f():\n    x = 1\n    return x` as a pre-order arena mirroring a
/// Python parse tree.
fn function_tree() -> Tree {
    let source = b"def f():\n    x = 1\n    return x".to_vec();
    let nodes = vec![
        node(NodeKind::Other, 0, 31, None, vec![1], None),
        node(NodeKind::FunctionDef, 0, 31, Some(0), vec![2, 3, 4, 5, 6], Some(3)),
        node(NodeKind::Other, 0, 3, Some(1), vec![], None),
        node(NodeKind::Other, 4, 5, Some(1), vec![], None),
        node(NodeKind::Other, 5, 7, Some(1), vec![], None),
        node(NodeKind::Other, 7, 8, Some(1), vec![], None),
        node(NodeKind::Other, 13, 31, Some(1), vec![7, 12], None),
        node(NodeKind::Other, 13, 18, Some(6), vec![8], None),
        node(NodeKind::Other, 13, 18, Some(7), vec![9, 10, 11], None),
        node(NodeKind::Other, 13, 14, Some(8), vec![], None),
        node(NodeKind::Other, 15, 16, Some(8), vec![], None),
        node(NodeKind::Other, 17, 18, Some(8), vec![], None),
        node(NodeKind::Other, 23, 31, Some(6), vec![13, 14], None),
        node(NodeKind::Other, 23, 29, Some(12), vec![], None),
        node(NodeKind::Other, 30, 31, Some(12), vec![], None),
    ];
    Tree { nodes, source }
}

/// `class C:\n    def m(self):\n        call(target)` as an arena.
fn class_tree() -> Tree {
    let source = b"class C:\n    def m(self):\n        call(target)".to_vec();
    let nodes = vec![
        node(NodeKind::Other, 0, 46, None, vec![1], None),
        node(NodeKind::ClassDef, 0, 46, Some(0), vec![2, 3, 4, 5], Some(3)),
        node(NodeKind::Other, 0, 5, Some(1), vec![], None),
        node(NodeKind::Other, 6, 7, Some(1), vec![], None),
        node(NodeKind::Other, 7, 8, Some(1), vec![], None),
        node(NodeKind::Other, 13, 46, Some(1), vec![6], None),
        node(NodeKind::FunctionDef, 13, 46, Some(5), vec![7, 8, 9, 10, 11], Some(8)),
        node(NodeKind::Other, 13, 16, Some(6), vec![], None),
        node(NodeKind::Other, 17, 18, Some(6), vec![], None),
        node(NodeKind::Other, 18, 24, Some(6), vec![], None),
        node(NodeKind::Other, 24, 25, Some(6), vec![], None),
        node(NodeKind::Other, 34, 46, Some(6), vec![12], None),
        node(NodeKind::Other, 34, 46, Some(11), vec![13], None),
        node(NodeKind::Other, 34, 46, Some(12), vec![14, 15], None),
        node(NodeKind::Other, 34, 38, Some(13), vec![], None),
        node(NodeKind::Other, 38, 46, Some(13), vec![16, 17, 18], None),
        node(NodeKind::Other, 38, 39, Some(15), vec![], None),
        node(NodeKind::Other, 39, 45, Some(15), vec![], None),
        node(NodeKind::Other, 45, 46, Some(15), vec![], None),
    ];
    Tree { nodes, source }
}

/// `x = 1\n` with no enclosing named scope.
fn top_level_tree() -> Tree {
    let source = b"x = 1\n".to_vec();
    let nodes = vec![
        node(NodeKind::Other, 0, 6, None, vec![1], None),
        node(NodeKind::Other, 0, 5, Some(0), vec![2], None),
        node(NodeKind::Other, 0, 5, Some(1), vec![3, 4, 5], None),
        node(NodeKind::Other, 0, 1, Some(2), vec![], None),
        node(NodeKind::Other, 2, 3, Some(2), vec![], None),
        node(NodeKind::Other, 4, 5, Some(2), vec![], None),
    ];
    Tree { nodes, source }
}

/// A tree whose single leaf span is not valid UTF-8.
fn bad_utf8_tree() -> Tree {
    let source = vec![0xFF, 0x0A];
    let nodes = vec![
        node(NodeKind::Other, 0, 2, None, vec![1], None),
        node(NodeKind::Other, 0, 1, Some(0), vec![], None),
    ];
    Tree { nodes, source }
}

#[test]
fn match_in_function_reports_statement() {
    let t = function_tree();
    assert!(t.wf_check());
    let lines = process_file(&t, b"test.py", b"x").unwrap();
    assert_eq!(lines.len(), 2);
    assert_eq!(lines[0], b"test.py f: x = 1".to_vec());
    assert_eq!(lines[1], b"test.py f: return x".to_vec());
}

#[test]
fn match_in_nested_scopes_reports_chain() {
    let t = class_tree();
    assert!(t.wf_check());
    let lines = process_file(&t, b"test.py", b"target").unwrap();
    assert_eq!(lines.len(), 1);
    assert_eq!(lines[0], b"test.py C->m: call(target)".to_vec());
}

#[test]
fn absent_query_reports_nothing() {
    let t = function_tree();
    let lines = process_file(&t, b"test.py", b"zzz").unwrap();
    assert_eq!(lines.len(), 0);
}

#[test]
fn top_level_match_has_empty_chain() {
    let t = top_level_tree();
    assert!(t.wf_check());
    let lines = process_file(&t, b"f.py", b"x").unwrap();
    assert_eq!(lines.len(), 1);
    assert_eq!(lines[0], b"f.py : x = 1".to_vec());
}

#[test]
fn bad_utf8_file_is_skipped_and_others_go_on() {
    let bad = bad_utf8_tree();
    assert!(bad.wf_check());
    let first = process_file(&bad, b"bad.py", b"x");
    assert!(first.is_err());
    // The failure of one file must not stop the next one.
    let good = function_tree();
    let lines = process_file(&good, b"test.py", b"x").unwrap();
    assert_eq!(lines.len(), 2);
}

#[test]
fn deeply_nested_match_reports_multiline_statement_flattened() {
    // `def g():\n    if a:\n        b = 1` -- the match sits four levels
    // below the enclosing function, and the reported block is the whole
    // two-line `if` statement, flattened onto one line.
    let source = b"def g():\n    if a:\n        b = 1".to_vec();
    let nodes = vec![
        node(NodeKind::Other, 0, 32, None, vec![1], None),
        node(NodeKind::FunctionDef, 0, 32, Some(0), vec![2, 3, 4, 5, 6], Some(3)),
        node(NodeKind::Other, 0, 3, Some(1), vec![], None),
        node(NodeKind::Other, 4, 5, Some(1), vec![], None),
        node(NodeKind::Other, 5, 7, Some(1), vec![], None),
        node(NodeKind::Other, 7, 8, Some(1), vec![], None),
        node(NodeKind::Other, 13, 32, Some(1), vec![7], None),
        node(NodeKind::Other, 13, 32, Some(6), vec![8, 9, 10, 11], None),
        node(NodeKind::Other, 13, 15, Some(7), vec![], None),
        node(NodeKind::Other, 16, 17, Some(7), vec![], None),
        node(NodeKind::Other, 17, 18, Some(7), vec![], None),
        node(NodeKind::Other, 27, 32, Some(7), vec![12], None),
        node(NodeKind::Other, 27, 32, Some(11), vec![13, 14, 15], None),
        node(NodeKind::Other, 27, 28, Some(12), vec![], None),
        node(NodeKind::Other, 29, 30, Some(12), vec![], None),
        node(NodeKind::Other, 31, 32, Some(12), vec![], None),
    ];
    let t = Tree { nodes, source };
    assert!(t.wf_check());
    let lines = process_file(&t, b"t.py", b"b").unwrap();
    assert_eq!(lines.len(), 1);
    let mut expected = b"t.py g: if a:".to_vec();
    expected.extend_from_slice(&[0xE2, 0x86, 0xA9]);
    expected.extend_from_slice(b"b = 1");
    assert_eq!(lines[0], expected);
}
