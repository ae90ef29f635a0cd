//! The atom type: the smallest unit of the formatting intermediate
//! representation, either a token carrying source text or a whitespace or
//! layout marker.

use vstd::prelude::*;

verus! {

/// One element of the formatting stream.
///
/// `Leaf` carries the verbatim text of one tree node together with that
/// node's id; `Literal` carries text supplied by a directive.  The remaining
/// variants are whitespace and layout markers.  A `Softline` is a breakable
/// point that directive resolution turns into a `Hardline`, a `Space` or
/// nothing; it never reaches the renderer.
#[derive(Debug, Clone, PartialEq, Eq)]
pub enum Atom {
    Leaf { content: String, id: usize },
    Literal(String),
    Space,
    Hardline,
    Blankline,
    Softline { spaced: bool },
    IndentStart,
    IndentEnd,
    Empty,
}

/// The mathematical value of an [`Atom`]: text as a sequence of characters,
/// node ids as unbounded integers.
pub enum AtomView {
    Leaf { content: Seq<char>, id: int },
    Literal(Seq<char>),
    Space,
    Hardline,
    Blankline,
    Softline { spaced: bool },
    IndentStart,
    IndentEnd,
    Empty,
}

impl View for Atom {
    type V = AtomView;

    open spec fn view(&self) -> AtomView {
        match self {
            Atom::Leaf { content, id } => AtomView::Leaf { content: content@, id: *id as int },
            Atom::Literal(text) => AtomView::Literal(text@),
            Atom::Space => AtomView::Space,
            Atom::Hardline => AtomView::Hardline,
            Atom::Blankline => AtomView::Blankline,
            Atom::Softline { spaced } => AtomView::Softline { spaced: *spaced },
            Atom::IndentStart => AtomView::IndentStart,
            Atom::IndentEnd => AtomView::IndentEnd,
            Atom::Empty => AtomView::Empty,
        }
    }
}

impl DeepView for Atom {
    type V = AtomView;

    open spec fn deep_view(&self) -> AtomView {
        self.view()
    }
}

impl Atom {
    /// Decides equality of two atoms, at the level of their views.
    pub fn value_eq(&self, other: &Atom) -> (r: bool)
        ensures
            r == (self@ == other@),
    {
        match (self, other) {
            (Atom::Leaf { content: c1, id: i1 }, Atom::Leaf { content: c2, id: i2 }) => c1.eq(c2)
                && i1 == i2,
            (Atom::Literal(t1), Atom::Literal(t2)) => t1.eq(t2),
            (Atom::Space, Atom::Space) => true,
            (Atom::Hardline, Atom::Hardline) => true,
            (Atom::Blankline, Atom::Blankline) => true,
            (Atom::Softline { spaced: s1 }, Atom::Softline { spaced: s2 }) => s1 == s2,
            (Atom::IndentStart, Atom::IndentStart) => true,
            (Atom::IndentEnd, Atom::IndentEnd) => true,
            (Atom::Empty, Atom::Empty) => true,
            _ => false,
        }
    }

    /// Returns a copy of the atom with the same view.
    pub fn duplicate(&self) -> (r: Atom)
        ensures
            r@ == self@,
    {
        match self {
            Atom::Leaf { content, id } => Atom::Leaf { content: content.clone(), id: *id },
            Atom::Literal(text) => Atom::Literal(text.clone()),
            Atom::Space => Atom::Space,
            Atom::Hardline => Atom::Hardline,
            Atom::Blankline => Atom::Blankline,
            Atom::Softline { spaced } => Atom::Softline { spaced: *spaced },
            Atom::IndentStart => Atom::IndentStart,
            Atom::IndentEnd => Atom::IndentEnd,
            Atom::Empty => Atom::Empty,
        }
    }
}

} // verus!
