use topiary::atom_collection::AtomCollection;
use topiary::Atom;

fn leaf(text: &str, id: usize) -> Atom {
    Atom::Leaf { content: text.to_string(), id }
}

fn count_of(atoms: &[Atom], probe: &Atom) -> usize {
    atoms.iter().filter(|a| *a == probe).count()
}

#[test]
fn final_hardline_added_once() {
    let mut c = AtomCollection::from_atoms(vec![leaf("x", 0)]);
    c.ensure_final_hardline();
    assert_eq!(c.atoms().len(), 2);
    assert_eq!(c.atoms()[1], Atom::Hardline);
}

#[test]
fn final_hardline_idempotent() {
    let mut c = AtomCollection::from_atoms(vec![leaf("x", 0), Atom::Hardline]);
    c.ensure_final_hardline();
    let first: Vec<Atom> = c.atoms().clone();
    c.ensure_final_hardline();
    assert_eq!(c.atoms(), &first);
    assert_eq!(c.atoms().len(), 2);
}

#[test]
fn clean_up_consecutive_collapses_runs() {
    let c = AtomCollection::from_atoms(vec![
        leaf("a", 0),
        Atom::Space,
        Atom::Space,
        Atom::Space,
        leaf("b", 1),
        Atom::Space,
        leaf("c", 2),
    ]);
    let out = c.clean_up_consecutive(Atom::Space);
    assert_eq!(
        out,
        vec![leaf("a", 0), Atom::Space, leaf("b", 1), Atom::Space, leaf("c", 2)]
    );
    for w in out.windows(2) {
        assert!(!(w[0] == Atom::Space && w[1] == Atom::Space));
    }
    // Order and multiplicity of the other atoms are untouched.
    let others: Vec<&Atom> = out.iter().filter(|a| **a != Atom::Space).collect();
    assert_eq!(others, vec![&leaf("a", 0), &leaf("b", 1), &leaf("c", 2)]);
}

#[test]
fn clean_up_consecutive_drops_boundary_runs() {
    let c = AtomCollection::from_atoms(vec![
        Atom::Hardline,
        Atom::Hardline,
        leaf("a", 0),
        Atom::Hardline,
    ]);
    let out = c.clean_up_consecutive(Atom::Hardline);
    assert_eq!(out, vec![leaf("a", 0)]);
}

#[test]
fn trim_following_drops_skips_after_delimiter() {
    let c = AtomCollection::from_atoms(vec![
        leaf("a", 0),
        Atom::Blankline,
        Atom::Space,
        Atom::Space,
        leaf("b", 1),
        Atom::Space,
    ]);
    let out = c.trim_following(Atom::Blankline, Atom::Space);
    assert_eq!(
        out,
        vec![leaf("a", 0), Atom::Blankline, leaf("b", 1), Atom::Space]
    );
    for w in out.windows(2) {
        assert!(!(w[0] == Atom::Blankline && w[1] == Atom::Space));
    }
}

#[test]
fn trim_following_drops_leading_skips() {
    let c = AtomCollection::from_atoms(vec![Atom::Space, Atom::Space, leaf("a", 0)]);
    let out = c.trim_following(Atom::Hardline, Atom::Space);
    assert_eq!(out, vec![leaf("a", 0)]);
}

#[test]
fn put_before_swaps_space_past_indent_end() {
    let mut c = AtomCollection::from_atoms(vec![leaf("a", 0), Atom::Space, Atom::IndentEnd]);
    c.put_before(Atom::IndentEnd, Atom::Space, &[]);
    assert_eq!(c.atoms(), &vec![leaf("a", 0), Atom::IndentEnd, Atom::Space]);
}

#[test]
fn put_before_skips_ignored_atoms() {
    let mut c = AtomCollection::from_atoms(vec![
        Atom::Blankline,
        Atom::Space,
        Atom::Hardline,
        leaf("a", 0),
    ]);
    c.put_before(Atom::Hardline, Atom::Blankline, &[Atom::Space]);
    assert_eq!(
        c.atoms(),
        &vec![Atom::Hardline, Atom::Space, Atom::Blankline, leaf("a", 0)]
    );
}

#[test]
fn put_before_preserves_multiset() {
    let input = vec![
        Atom::Space,
        Atom::Space,
        Atom::IndentEnd,
        leaf("a", 0),
        Atom::Space,
        Atom::IndentEnd,
    ];
    let mut c = AtomCollection::from_atoms(input.clone());
    c.put_before(Atom::IndentEnd, Atom::Space, &[]);
    let out = c.atoms();
    assert_eq!(out.len(), input.len());
    for probe in [Atom::Space, Atom::IndentEnd, leaf("a", 0)] {
        assert_eq!(count_of(out, &probe), count_of(&input, &probe));
    }
}

#[test]
fn put_before_stops_at_other_atoms() {
    let mut c = AtomCollection::from_atoms(vec![Atom::Space, leaf("a", 0), Atom::IndentEnd]);
    c.put_before(Atom::IndentEnd, Atom::Space, &[]);
    // The leaf blocks the scan, so nothing moves.
    assert_eq!(c.atoms(), &vec![Atom::Space, leaf("a", 0), Atom::IndentEnd]);
}

#[test]
fn post_process_on_empty_stream_yields_one_hardline() {
    let mut c = AtomCollection::from_atoms(Vec::new());
    c.post_process();
    assert_eq!(c.atoms(), &vec![Atom::Hardline]);
}

#[test]
fn post_process_cleans_spaces_and_breaks() {
    let mut c = AtomCollection::from_atoms(vec![
        leaf("a", 0),
        Atom::Space,
        Atom::Space,
        Atom::Hardline,
        Atom::Space,
        leaf("b", 1),
        Atom::Hardline,
        Atom::Hardline,
    ]);
    c.post_process();
    // The space run collapses, the space after the line break goes, the
    // double break collapses, and the stream ends with one hardline.  The
    // space before the hardline survives: only spaces following breaks are
    // trimmed.
    assert_eq!(
        c.atoms(),
        &vec![
            leaf("a", 0),
            Atom::Space,
            Atom::Hardline,
            leaf("b", 1),
            Atom::Hardline,
        ]
    );
}
