use scopegrep::search::{collect_parent_hierarchy, find_leaf_nodes_with_text, get_node_name,
    matched_block, named_projection};
use scopegrep::text::{contains_bytes, format_multiline, validate_utf8};
use scopegrep::report::{format_report_line, join_names};
use scopegrep::tree::{Node, NodeKind, Tree};

fn node(
    kind: NodeKind,
    start: usize,
    end: usize,
    parent: Option<usize>,
    children: Vec<usize>,
    name_child: Option<usize>,
) -> Node {
    Node { kind, start, end, parent, children, name_child }
}

/// `def f():\n    x = 1\n    return x` as a pre-order arena.
fn function_tree() -> Tree {
    let source = b"def f():\n    x = 1\n    return x".to_vec();
    let nodes = vec![
        node(NodeKind::Other, 0, 31, None, vec![1], None),
        node(NodeKind::FunctionDef, 0, 31, Some(0), vec![2, 3, 4, 5, 6], Some(3)),
        node(NodeKind::Other, 0, 3, Some(1), vec![], None),
        node(NodeKind::Other, 4, 5, Some(1), vec![], None),
        node(NodeKind::Other, 5, 7, Some(1), vec![], None),
        node(NodeKind::Other, 7, 8, Some(1), vec![], None),
        node(NodeKind::Other, 13, 31, Some(1), vec![7, 12], None),
        node(NodeKind::Other, 13, 18, Some(6), vec![8], None),
        node(NodeKind::Other, 13, 18, Some(7), vec![9, 10, 11], None),
        node(NodeKind::Other, 13, 14, Some(8), vec![], None),
        node(NodeKind::Other, 15, 16, Some(8), vec![], None),
        node(NodeKind::Other, 17, 18, Some(8), vec![], None),
        node(NodeKind::Other, 23, 31, Some(6), vec![13, 14], None),
        node(NodeKind::Other, 23, 29, Some(12), vec![], None),
        node(NodeKind::Other, 30, 31, Some(12), vec![], None),
    ];
    Tree { nodes, source }
}

#[test]
fn contains_bytes_cases() {
    assert!(contains_bytes(b"return x", b"x"));
    assert!(contains_bytes(b"abc", b""));
    assert!(contains_bytes(b"", b""));
    assert!(contains_bytes(b"abcabc", b"cab"));
    assert!(!contains_bytes(b"abc", b"abd"));
    assert!(!contains_bytes(b"ab", b"abc"));
}

#[test]
fn validate_utf8_cases() {
    assert!(validate_utf8(b"plain ascii"));
    // Two-, three- and four-byte sequences.
    assert!(validate_utf8(&[0xC3, 0xA9]));
    assert!(validate_utf8(&[0xE2, 0x86, 0xA9]));
    assert!(validate_utf8(&[0xF0, 0x9F, 0x98, 0x80]));
    // A stray continuation byte, a truncated sequence, a surrogate,
    // an overlong form, and a byte no UTF-8 text can hold.
    assert!(!validate_utf8(&[0x80]));
    assert!(!validate_utf8(&[0xE2, 0x86]));
    assert!(!validate_utf8(&[0xED, 0xA0, 0x80]));
    assert!(!validate_utf8(&[0xC0, 0x80]));
    assert!(!validate_utf8(&[0xFF]));
}

#[test]
fn format_multiline_replaces_breaks() {
    let r = format_multiline(b"if a:\n    b = 1");
    let mut expected = b"if a:".to_vec();
    expected.extend_from_slice(&[0xE2, 0x86, 0xA9]);
    expected.extend_from_slice(b"b = 1");
    assert_eq!(r, expected);
    // A newline not followed by whitespace is kept as it is, and other
    // whitespace runs are left alone.
    assert_eq!(format_multiline(b"a\nb  c"), b"a\nb  c".to_vec());
    // A trailing newline has no whitespace after it.
    assert_eq!(format_multiline(b"a\n"), b"a\n".to_vec());
}

#[test]
fn format_multiline_knows_unicode_whitespace() {
    // A newline followed by a multi-byte white-space character is a
    // break to replace: U+00A0 (no-break space, two bytes) and U+2003
    // (em space, three bytes) count, exactly as a Unicode whitespace
    // class would match them.
    let mut expected = b"a".to_vec();
    expected.extend_from_slice(&[0xE2, 0x86, 0xA9]);
    expected.extend_from_slice(b"b");
    assert_eq!(format_multiline(b"a\n\xC2\xA0b"), expected);
    assert_eq!(format_multiline(b"a\n\xE2\x80\x83b"), expected);
    // Mixed runs of ASCII and multi-byte whitespace collapse into the
    // same single marker.
    assert_eq!(format_multiline(b"a\n \xC2\xA0 \xE2\x80\xA8 b"), expected);
    // A non-break space not after a newline is an ordinary character.
    assert_eq!(format_multiline(b"a\xC2\xA0b"), b"a\xC2\xA0b".to_vec());
}

#[test]
fn format_multiline_takes_whole_whitespace_run() {
    // The run after a newline is consumed greedily, further newlines
    // included: a blank line collapses into the same single marker.
    let mut expected = b"a".to_vec();
    expected.extend_from_slice(&[0xE2, 0x86, 0xA9]);
    expected.extend_from_slice(b"b");
    assert_eq!(format_multiline(b"a\n\n  b"), expected);
    // A carriage return before a newline is an ordinary byte; the
    // newline itself is kept because 'b' follows it directly.
    assert_eq!(format_multiline(b"a\r\nb"), b"a\r\nb".to_vec());
}

#[test]
fn format_multiline_output_has_no_break_left() {
    // After flattening, no newline is followed by a whitespace
    // character of any width: every such break became the marker.
    fn ws_width_at(s: &[u8], j: usize) -> usize {
        if j < s.len() && (s[j] == 0x20 || s[j] == 0x09 || s[j] == 0x0A || s[j] == 0x0D
            || s[j] == 0x0B || s[j] == 0x0C)
        {
            1
        } else if j + 2 <= s.len() && s[j] == 0xC2 && (s[j + 1] == 0x85 || s[j + 1] == 0xA0) {
            2
        } else if j + 3 <= s.len()
            && ((s[j] == 0xE1 && s[j + 1] == 0x9A && s[j + 2] == 0x80)
                || (s[j] == 0xE2 && s[j + 1] == 0x80
                    && ((0x80..=0x8A).contains(&s[j + 2]) || [0xA8, 0xA9, 0xAF].contains(&s[j + 2])))
                || (s[j] == 0xE2 && s[j + 1] == 0x81 && s[j + 2] == 0x9F)
                || (s[j] == 0xE3 && s[j + 1] == 0x80 && s[j + 2] == 0x80))
        {
            3
        } else {
            0
        }
    }
    let inputs: [&[u8]; 4] = [
        b"x\n y\nz\n\xC2\xA0w",
        b"a\n\n\tb\nc",
        b"\n \xE2\x80\xA8 q\n",
        b"plain, one line",
    ];
    for input in inputs {
        let out = format_multiline(input);
        for p in 0..out.len() {
            if out[p] == 0x0A {
                assert_eq!(ws_width_at(&out, p + 1), 0);
            }
        }
    }
}

#[test]
fn format_multiline_round_trip_keeps_line_count() {
    let input = b"one\n  two\n   three";
    let flat = format_multiline(input);
    // Re-split the flattened block on the join marker: the piece count
    // equals the original line count.
    let marker = [0xE2u8, 0x86, 0xA9];
    let mut pieces = 1;
    let mut i = 0;
    while i + 3 <= flat.len() {
        if flat[i..i + 3] == marker {
            pieces += 1;
            i += 3;
        } else {
            i += 1;
        }
    }
    let original_lines = input.split(|b| *b == b'\n').count();
    assert_eq!(pieces, original_lines);
    assert_eq!(pieces, 3);
}

#[test]
fn hierarchy_is_root_first_and_ends_at_node() {
    let t = function_tree();
    let h = collect_parent_hierarchy(&t, 9);
    assert_eq!(h, vec![0, 1, 6, 7, 8, 9]);
    let h_root = collect_parent_hierarchy(&t, 0);
    assert_eq!(h_root, vec![0]);
}

#[test]
fn find_leaf_matches_are_leaves_in_source_order() {
    let t = function_tree();
    let m = find_leaf_nodes_with_text(&t, 0, b"x").unwrap();
    assert_eq!(m, vec![9, 14]);
    for n in m {
        assert!(t.nodes[n].children.is_empty());
    }
    let none = find_leaf_nodes_with_text(&t, 0, b"zzz").unwrap();
    assert!(none.is_empty());
}

#[test]
fn find_leaf_matches_decode_error() {
    let mut t = function_tree();
    // Corrupt the byte under the `1` literal's leaf span.
    t.source[17] = 0xFF;
    assert!(find_leaf_nodes_with_text(&t, 0, b"x").is_err());
}

#[test]
fn node_names_resolve_only_for_named_scopes() {
    let t = function_tree();
    assert_eq!(get_node_name(&t, 1), Some(b"f".to_vec()));
    // An ordinary node never yields a name.
    assert_eq!(get_node_name(&t, 7), None);
}

#[test]
fn unnamed_scope_kind_is_dropped_from_projection() {
    // A function-definition node without a resolvable name stays in
    // the raw hierarchy but leaves the named projection.
    let source = b"def :\n    x".to_vec();
    let nodes = vec![
        node(NodeKind::Other, 0, 11, None, vec![1], None),
        node(NodeKind::FunctionDef, 0, 11, Some(0), vec![2, 3, 4], None),
        node(NodeKind::Other, 0, 3, Some(1), vec![], None),
        node(NodeKind::Other, 4, 5, Some(1), vec![], None),
        node(NodeKind::Other, 10, 11, Some(1), vec![], None),
    ];
    let t = Tree { nodes, source };
    assert!(t.wf_check());
    let h = collect_parent_hierarchy(&t, 4);
    assert_eq!(h, vec![0, 1, 4]);
    let proj = named_projection(&t, &h);
    assert!(proj.is_empty());
}

#[test]
fn join_names_uses_arrow_separator() {
    let source = b"class C:\n    def m(self): pass".to_vec();
    let nodes = vec![
        node(NodeKind::Other, 0, 30, None, vec![1], None),
        node(NodeKind::ClassDef, 0, 30, Some(0), vec![2, 3], Some(2)),
        node(NodeKind::Other, 6, 7, Some(1), vec![], None),
        node(NodeKind::FunctionDef, 13, 30, Some(1), vec![4], Some(4)),
        node(NodeKind::Other, 17, 18, Some(3), vec![], None),
    ];
    let t = Tree { nodes, source };
    assert!(t.wf_check());
    let proj = vec![1, 3];
    assert_eq!(join_names(&t, &proj), b"C->m".to_vec());
    let empty: Vec<usize> = vec![];
    assert_eq!(join_names(&t, &empty), b"".to_vec());
}

#[test]
fn matched_block_selects_grandchild_of_anchor() {
    let t = function_tree();
    // Match at the `x` of `x = 1`, innermost named scope is node 1:
    // the reported block is the expression statement, node 7.
    let block = matched_block(&t, 9, 1);
    assert_eq!(block, b"x = 1".to_vec());
    // Re-running from statement level changes nothing (the anchor
    // selection is idempotent).
    let again = matched_block(&t, 7, 1);
    assert_eq!(again, b"x = 1".to_vec());
}

#[test]
fn report_line_has_fixed_shape() {
    let line = format_report_line(b"a.py", b"C->m", b"x = 1");
    assert_eq!(line, b"a.py C->m: x = 1".to_vec());
    let bare = format_report_line(b"a.py", b"", b"x = 1");
    assert_eq!(bare, b"a.py : x = 1".to_vec());
}

#[test]
fn wf_check_rejects_broken_links() {
    let mut t = function_tree();
    assert!(t.wf_check());
    // A child that does not point back at its parent.
    t.nodes[9].parent = Some(7);
    assert!(!t.wf_check());
    let mut t2 = function_tree();
    // A span reaching outside the source buffer.
    t2.nodes[14].end = 99;
    assert!(!t2.wf_check());
    // An empty arena has no root.
    let t3 = Tree { nodes: vec![], source: vec![] };
    assert!(!t3.wf_check());
}

#[test]
fn wf_check_rejects_duplicate_children() {
    // The same child index listed twice passes the span ordering when
    // the spans are empty, but the child list must be duplicate-free.
    let nodes = vec![
        node(NodeKind::Other, 0, 0, None, vec![1, 1], None),
        node(NodeKind::Other, 0, 0, Some(0), vec![], None),
    ];
    let t = Tree { nodes, source: vec![] };
    assert!(!t.wf_check());
}
