use topiary::{Atom, AtomCollection, Cst, CstNode, FormatterError};

fn node(
    parent: Option<usize>,
    children: Vec<usize>,
    rows: (usize, usize),
    bytes: (usize, usize),
) -> CstNode {
    CstNode {
        parent,
        children,
        start_row: rows.0,
        end_row: rows.1,
        start_byte: bytes.0,
        end_byte: bytes.1,
    }
}

#[test]
fn collects_leaves_in_source_order() {
    let tree = Cst::from_nodes(vec![
        node(None, vec![1, 2], (0, 0), (0, 4)),
        node(Some(0), vec![], (0, 0), (0, 2)),
        node(Some(0), vec![], (0, 0), (2, 4)),
    ])
    .unwrap();
    let c = AtomCollection::collect_leafs(&tree, b"abcd", vec![false; 3]).unwrap();
    assert_eq!(
        c.atoms(),
        &vec![
            Atom::Leaf { content: "ab".to_string(), id: 1 },
            Atom::Leaf { content: "cd".to_string(), id: 2 },
        ]
    );
}

#[test]
fn atomic_leaf_yields_one_atom() {
    // Node 1 has two children but is declared an atomic leaf: exactly one
    // leaf atom comes out, carrying node 1's id and its whole text.
    let tree = Cst::from_nodes(vec![
        node(None, vec![1], (0, 0), (0, 4)),
        node(Some(0), vec![2, 3], (0, 0), (0, 4)),
        node(Some(1), vec![], (0, 0), (0, 2)),
        node(Some(1), vec![], (0, 0), (2, 4)),
    ])
    .unwrap();
    let mut specified = vec![false; 4];
    specified[1] = true;
    let c = AtomCollection::collect_leafs(&tree, b"wxyz", specified).unwrap();
    assert_eq!(c.atoms().len(), 1);
    assert_eq!(
        c.atoms()[0],
        Atom::Leaf { content: "wxyz".to_string(), id: 1 }
    );
}

#[test]
fn multi_line_membership_is_per_node() {
    // A node spanning only one line is absent from the multi-line set; one
    // spanning lines 3 through 5 is present.
    let tree = Cst::from_nodes(vec![
        node(None, vec![1, 2], (3, 5), (0, 2)),
        node(Some(0), vec![], (3, 3), (0, 1)),
        node(Some(0), vec![], (3, 5), (1, 2)),
    ])
    .unwrap();
    let multi = topiary::tree::detect_multi_line_nodes(&tree);
    assert!(multi[0]);
    assert!(!multi[1]);
    assert!(multi[2]);
}

#[test]
fn gap_of_two_lines_marks_blank_and_line_break() {
    // Sibling A ends on line 2, sibling B starts on line 4: B is
    // blank-line-before, A is line-break-after, and B is also
    // line-break-before, since a gap of two lines is in particular a gap of
    // one.
    let tree = Cst::from_nodes(vec![
        node(None, vec![1, 2], (0, 4), (0, 2)),
        node(Some(0), vec![], (2, 2), (0, 1)),
        node(Some(0), vec![], (4, 4), (1, 2)),
    ])
    .unwrap();
    let blank_before = topiary::tree::detect_blank_lines_before(&tree);
    assert!(blank_before[2]);
    assert!(!blank_before[1]);
    let (break_before, break_after) = topiary::tree::detect_line_break_before_and_after(&tree);
    assert!(break_before[2]);
    assert!(break_after[1]);
    assert!(!break_after[2]);
}

#[test]
fn invalid_utf8_is_a_text_extraction_error() {
    let tree = Cst::from_nodes(vec![node(None, vec![], (0, 0), (0, 1))]).unwrap();
    let r = AtomCollection::collect_leafs(&tree, &[0xff], vec![false]);
    match r {
        Err(FormatterError::TextExtraction(id)) => assert_eq!(id, 0),
        _ => panic!("expected a text extraction error"),
    }
}

#[test]
fn byte_range_outside_source_is_a_text_extraction_error() {
    let tree = Cst::from_nodes(vec![node(None, vec![], (0, 0), (0, 9))]).unwrap();
    let r = AtomCollection::collect_leafs(&tree, b"ab", vec![false]);
    assert!(matches!(r, Err(FormatterError::TextExtraction(0))));
}

#[test]
fn multi_byte_text_is_decoded() {
    let source = "héllo".as_bytes();
    let tree = Cst::from_nodes(vec![node(None, vec![], (0, 0), (0, source.len()))]).unwrap();
    let c = AtomCollection::collect_leafs(&tree, source, vec![false]).unwrap();
    assert_eq!(
        c.atoms()[0],
        Atom::Leaf { content: "héllo".to_string(), id: 0 }
    );
}

#[test]
fn from_nodes_rejects_inconsistent_arenas() {
    // A child index pointing before its parent breaks the pre-order shape.
    assert!(Cst::from_nodes(vec![
        node(None, vec![1], (0, 0), (0, 1)),
        node(Some(0), vec![0], (0, 0), (0, 1)),
    ])
    .is_none());
    // A parent index at or after the node itself is rejected too.
    assert!(Cst::from_nodes(vec![node(Some(0), vec![], (0, 0), (0, 1))]).is_none());
}
