use topiary::{Atom, AtomCollection, Cst, CstNode, FormatterError};

fn node(
    parent: Option<usize>,
    children: Vec<usize>,
    rows: (usize, usize),
    bytes: (usize, usize),
) -> CstNode {
    CstNode {
        parent,
        children,
        start_row: rows.0,
        end_row: rows.1,
        start_byte: bytes.0,
        end_byte: bytes.1,
    }
}

fn two_leaf_tree() -> Cst {
    // Root with leaves "a" (node 1, line 0) and "b" (node 2, line 2): a
    // line-break gap of two lines sits between them.
    Cst::from_nodes(vec![
        node(None, vec![1, 2], (0, 2), (0, 2)),
        node(Some(0), vec![], (0, 0), (0, 1)),
        node(Some(0), vec![], (2, 2), (1, 2)),
    ])
    .unwrap()
}

#[test]
fn append_delimiter_without_delimiter_fails() {
    let tree = two_leaf_tree();
    let mut c = AtomCollection::collect_leafs(&tree, b"ab", vec![false; 3]).unwrap();
    let r = c.resolve_capture("append_delimiter".to_string(), &tree, 1, None);
    match r {
        Err(FormatterError::Query(m)) => {
            assert!(m.contains("append_delimiter"));
            assert_eq!(m, "@append_delimiter requires a #delimiter! predicate");
        },
        _ => panic!("expected a query error"),
    }
}

#[test]
fn append_delimiter_inserts_literal() {
    let tree = two_leaf_tree();
    let mut c = AtomCollection::collect_leafs(&tree, b"ab", vec![false; 3]).unwrap();
    c.resolve_capture("append_delimiter".to_string(), &tree, 1, Some(","))
        .unwrap();
    c.apply_prepends_and_appends();
    assert_eq!(c.atoms()[1], Atom::Literal(",".to_string()));
}

#[test]
fn input_softlines_follow_source_line_breaks() {
    let tree = two_leaf_tree();
    let mut c = AtomCollection::collect_leafs(&tree, b"ab", vec![false; 3]).unwrap();
    // Node 1 is line-break-after, so its input softline hardens; node 1 is
    // not line-break-before, so a prepended input softline is a space.
    c.resolve_capture("append_input_softline".to_string(), &tree, 1, None)
        .unwrap();
    c.resolve_capture("prepend_input_softline".to_string(), &tree, 1, None)
        .unwrap();
    c.apply_prepends_and_appends();
    assert_eq!(
        c.atoms(),
        &vec![
            Atom::Space,
            Atom::Leaf { content: "a".to_string(), id: 1 },
            Atom::Hardline,
            Atom::Leaf { content: "b".to_string(), id: 2 },
        ]
    );
}

#[test]
fn allow_blank_line_before_needs_a_blank_gap() {
    let tree = two_leaf_tree();
    let mut c = AtomCollection::collect_leafs(&tree, b"ab", vec![false; 3]).unwrap();
    // The gap between the leaves is two lines, so node 2 may keep its blank
    // line; node 1 has no blank gap and stays untouched.
    c.resolve_capture("allow_blank_line_before".to_string(), &tree, 2, None)
        .unwrap();
    c.resolve_capture("allow_blank_line_before".to_string(), &tree, 1, None)
        .unwrap();
    c.apply_prepends_and_appends();
    assert_eq!(
        c.atoms(),
        &vec![
            Atom::Leaf { content: "a".to_string(), id: 1 },
            Atom::Blankline,
            Atom::Leaf { content: "b".to_string(), id: 2 },
        ]
    );
}

#[test]
fn unknown_directives_are_ignored() {
    let tree = two_leaf_tree();
    let mut c = AtomCollection::collect_leafs(&tree, b"ab", vec![false; 3]).unwrap();
    c.resolve_capture("leaf".to_string(), &tree, 1, None).unwrap();
    c.resolve_capture("do_something_new".to_string(), &tree, 2, None)
        .unwrap();
    c.apply_prepends_and_appends();
    assert_eq!(c.atoms().len(), 2);
}

#[test]
fn softline_hardens_under_multi_line_parent() {
    // Same shape, but the parent spans several lines, so spaced and empty
    // softlines both become hardlines.
    let tree = two_leaf_tree();
    let mut c = AtomCollection::collect_leafs(&tree, b"ab", vec![false; 3]).unwrap();
    c.resolve_capture("append_spaced_softline".to_string(), &tree, 1, None)
        .unwrap();
    c.resolve_capture("prepend_empty_softline".to_string(), &tree, 2, None)
        .unwrap();
    c.apply_prepends_and_appends();
    assert_eq!(
        c.atoms(),
        &vec![
            Atom::Leaf { content: "a".to_string(), id: 1 },
            Atom::Hardline,
            Atom::Hardline,
            Atom::Leaf { content: "b".to_string(), id: 2 },
        ]
    );
}

#[test]
fn softline_on_single_line_parent_spaces_or_vanishes() {
    // All on one line: a spaced softline becomes a space, an empty one
    // disappears.
    let tree = Cst::from_nodes(vec![
        node(None, vec![1, 2], (0, 0), (0, 2)),
        node(Some(0), vec![], (0, 0), (0, 1)),
        node(Some(0), vec![], (0, 0), (1, 2)),
    ])
    .unwrap();
    let mut c = AtomCollection::collect_leafs(&tree, b"ab", vec![false; 3]).unwrap();
    c.resolve_capture("append_spaced_softline".to_string(), &tree, 1, None)
        .unwrap();
    c.resolve_capture("append_empty_softline".to_string(), &tree, 1, None)
        .unwrap();
    c.apply_prepends_and_appends();
    assert_eq!(
        c.atoms(),
        &vec![
            Atom::Leaf { content: "a".to_string(), id: 1 },
            Atom::Space,
            Atom::Leaf { content: "b".to_string(), id: 2 },
        ]
    );
}

#[test]
fn directives_anchor_through_atomic_leaves() {
    // Node 1 is an atomic leaf wrapping nodes 2 and 3; appending to node 3
    // redirects to node 1, so the atom lands after the composite token.
    let tree = Cst::from_nodes(vec![
        node(None, vec![1], (0, 0), (0, 2)),
        node(Some(0), vec![2, 3], (0, 0), (0, 2)),
        node(Some(1), vec![], (0, 0), (0, 1)),
        node(Some(1), vec![], (0, 0), (1, 2)),
    ])
    .unwrap();
    let mut specified = vec![false; 4];
    specified[1] = true;
    let mut c = AtomCollection::collect_leafs(&tree, b"ab", specified).unwrap();
    c.resolve_capture("append_space".to_string(), &tree, 3, None)
        .unwrap();
    c.apply_prepends_and_appends();
    assert_eq!(
        c.atoms(),
        &vec![
            Atom::Leaf { content: "ab".to_string(), id: 1 },
            Atom::Space,
        ]
    );
}
