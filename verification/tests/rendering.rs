use topiary::{render, Atom, AtomCollection, Cst, CstNode};

fn node(
    parent: Option<usize>,
    children: Vec<usize>,
    rows: (usize, usize),
    bytes: (usize, usize),
) -> CstNode {
    CstNode {
        parent,
        children,
        start_row: rows.0,
        end_row: rows.1,
        start_byte: bytes.0,
        end_byte: bytes.1,
    }
}

fn leaf(text: &str, id: usize) -> Atom {
    Atom::Leaf { content: text.to_string(), id }
}

#[test]
fn indent_scope_offsets_line_breaks() {
    // A line break inside one indent scope of width two begins the new line
    // with exactly two spaces.
    let atoms = vec![Atom::IndentStart, Atom::Hardline, leaf("x", 0), Atom::IndentEnd];
    let text = render(&atoms, 2).unwrap();
    assert_eq!(text, "\n  x");
}

#[test]
fn nested_scopes_accumulate_indentation() {
    let atoms = vec![
        Atom::IndentStart,
        Atom::IndentStart,
        Atom::Hardline,
        leaf("x", 0),
        Atom::IndentEnd,
        Atom::Hardline,
        leaf("y", 1),
        Atom::IndentEnd,
    ];
    let text = render(&atoms, 2).unwrap();
    assert_eq!(text, "\n    x\n  y");
}

#[test]
fn leaf_text_is_trimmed_at_the_end_only() {
    let atoms = vec![leaf("x  ", 0), leaf("  y\t\n", 1)];
    let text = render(&atoms, 4).unwrap();
    assert_eq!(text, "x  y");
}

#[test]
fn literal_space_empty_and_blankline_emission() {
    let atoms = vec![
        Atom::Literal("-".to_string()),
        Atom::Empty,
        Atom::Space,
        leaf("x", 0),
        Atom::Blankline,
        leaf("y", 1),
    ];
    let text = render(&atoms, 2).unwrap();
    assert_eq!(text, "- x\n\ny");
}

#[test]
fn whole_pipeline_indents_a_block() {
    // Leaves { a }: the opening brace opens an indent scope and breaks the
    // line, a hardline follows the content, and the closing brace closes the
    // scope.  Post-processing pulls the hardline before the closing
    // dedent past it, so the brace lands on an unindented line.
    let tree = Cst::from_nodes(vec![
        node(None, vec![1, 2, 3], (0, 0), (0, 3)),
        node(Some(0), vec![], (0, 0), (0, 1)),
        node(Some(0), vec![], (0, 0), (1, 2)),
        node(Some(0), vec![], (0, 0), (2, 3)),
    ])
    .unwrap();
    let mut c = AtomCollection::collect_leafs(&tree, b"{a}", vec![false; 4]).unwrap();
    c.resolve_capture("append_indent_start".to_string(), &tree, 1, None)
        .unwrap();
    c.resolve_capture("append_hardline".to_string(), &tree, 1, None)
        .unwrap();
    c.resolve_capture("append_hardline".to_string(), &tree, 2, None)
        .unwrap();
    c.resolve_capture("prepend_indent_end".to_string(), &tree, 3, None)
        .unwrap();
    c.apply_prepends_and_appends();
    c.post_process();
    assert_eq!(
        c.atoms(),
        &vec![
            leaf("{", 1),
            Atom::IndentStart,
            Atom::Hardline,
            leaf("a", 2),
            Atom::IndentEnd,
            Atom::Hardline,
            leaf("}", 3),
            Atom::Hardline,
        ]
    );
    let text = render(c.atoms(), 2).unwrap();
    assert_eq!(text, "{\n  a\n}\n");
}

#[test]
fn whole_pipeline_formats_a_call() {
    // Leaves a ( ␣ b , c ␣ ) on one line; a space is appended after the
    // opening parenthesis, the closing parenthesis asks for an empty
    // softline, and a hardline follows the comma.  The parent is not
    // multi-line, so the softline resolves to nothing.
    let tree = Cst::from_nodes(vec![
        node(None, (1..=8).collect(), (0, 0), (0, 8)),
        node(Some(0), vec![], (0, 0), (0, 1)),
        node(Some(0), vec![], (0, 0), (1, 2)),
        node(Some(0), vec![], (0, 0), (2, 3)),
        node(Some(0), vec![], (0, 0), (3, 4)),
        node(Some(0), vec![], (0, 0), (4, 5)),
        node(Some(0), vec![], (0, 0), (5, 6)),
        node(Some(0), vec![], (0, 0), (6, 7)),
        node(Some(0), vec![], (0, 0), (7, 8)),
    ])
    .unwrap();
    let source = b"a( b,c )";
    let mut c = AtomCollection::collect_leafs(&tree, source, vec![false; 9]).unwrap();
    c.resolve_capture("append_space".to_string(), &tree, 2, None)
        .unwrap();
    c.resolve_capture("prepend_empty_softline".to_string(), &tree, 8, None)
        .unwrap();
    c.resolve_capture("append_hardline".to_string(), &tree, 5, None)
        .unwrap();
    c.apply_prepends_and_appends();
    c.post_process();
    let text = render(c.atoms(), 2).unwrap();
    assert_eq!(text, "a( b,\nc)\n");
}
