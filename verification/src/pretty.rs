//! The document renderer: one forward pass over the final atom stream,
//! emitting text and tracking nested indentation scopes.  All break decisions
//! were made upstream; no width-based wrapping happens here.

use vstd::prelude::*;

use crate::atoms::{Atom, AtomView};
use crate::error::FormatterResult;

verus! {

/// What `str::trim_end` returns for a given text; the result depends on the
/// characters alone.
pub uninterp spec fn trim_end_of(s: Seq<char>) -> Seq<char>;

/// Relies on `str::trim_end`: the text with trailing whitespace removed.
#[verifier::external_body]
fn trim_end_str(s: &str) -> (r: String)
    ensures
        r@ == trim_end_of(s@),
{
    s.trim_end().to_string()
}

/// A column of `n` space characters.
pub open spec fn spaces(n: int) -> Seq<char> {
    Seq::new(
        if n >= 0 {
            n as nat
        } else {
            0
        },
        |i: int| ' ',
    )
}

/// One atom's contribution to the output: leaf text is emitted verbatim with
/// its trailing whitespace stripped, literals verbatim, a space as one space
/// character; `Hardline` breaks the line and indents the new one by the
/// nesting depth times the indent width; `Blankline` breaks the line, leaves
/// one line fully empty and indents the next; the indent markers only move
/// the nesting depth.
pub open spec fn render_step(acc: (Seq<char>, int), a: AtomView, width: int) -> (Seq<char>, int) {
    match a {
        AtomView::Empty => acc,
        AtomView::Leaf { content, .. } => (acc.0 + trim_end_of(content), acc.1),
        AtomView::Literal(t) => (acc.0 + t, acc.1),
        AtomView::Space => (acc.0.push(' '), acc.1),
        AtomView::Hardline => (acc.0.push('\n') + spaces(acc.1 * width), acc.1),
        AtomView::Blankline => (acc.0 + seq!['\n', '\n'] + spaces(acc.1 * width), acc.1),
        AtomView::IndentStart => (acc.0, acc.1 + 1),
        AtomView::IndentEnd => (acc.0, acc.1 - 1),
        AtomView::Softline { .. } => acc,
    }
}

/// Output text and nesting depth after consuming all of `s`.
pub open spec fn render_fold(s: Seq<AtomView>, width: int) -> (Seq<char>, int)
    decreases s.len(),
{
    if s.len() == 0 {
        (Seq::empty(), 0)
    } else {
        render_step(render_fold(s.drop_last(), width), s.last(), width)
    }
}

/// The rendered text of a whole stream.
pub open spec fn rendered(s: Seq<AtomView>, width: int) -> Seq<char> {
    render_fold(s, width).0
}

/// No softline survives in `s`; a softline reaching the renderer would break
/// the pipeline's contract.
pub open spec fn no_softlines(s: Seq<AtomView>) -> bool {
    forall|i: int| 0 <= i < s.len() ==> !(#[trigger] s[i] is Softline)
}

/// Indent scopes are balanced from the left: no prefix of the stream closes
/// more scopes than it has opened.
pub open spec fn balanced_from_left(s: Seq<AtomView>, width: int) -> bool {
    forall|k: int| 0 <= k <= s.len() ==> render_fold(#[trigger] s.take(k), width).1 >= 0
}

/// Appends `n` space characters.
#[verifier::loop_isolation(false)]
fn push_spaces(out: &mut String, n: usize)
    ensures
        final(out)@ == old(out)@ + spaces(n as int),
{
    proof {
        assert(old(out)@ + spaces(0) =~= old(out)@);
    }
    let mut k: usize = 0;
    while k < n
        invariant
            k <= n,
            out@ == old(out)@ + spaces(k as int),
        decreases n - k,
    {
        out.append(" ");
        proof {
            reveal_strlit(" ");
            assert(out@ =~= old(out)@ + spaces(k + 1));
        }
        k = k + 1;
    }
}

/// Renders the post-processed atom stream into the output text: a single
/// pass with an explicit cursor, where `IndentStart` opens a nested layout
/// scope of `indent_level` further columns and `IndentEnd` closes the
/// nearest open scope.
#[verifier::loop_isolation(false)]
pub fn render(atoms: &[Atom], indent_level: usize) -> (r: FormatterResult<String>)
    requires
        no_softlines(atoms.deep_view()),
        balanced_from_left(atoms.deep_view(), indent_level as int),
        atoms.deep_view().len() * indent_level <= usize::MAX,
    ensures
        r is Ok,
        r matches Ok(text) ==> text@ == rendered(atoms.deep_view(), indent_level as int),
{
    let n = atoms.len();
    let mut out = String::new();
    let mut depth: usize = 0;
    let mut i: usize = 0;
    while i < n
        invariant
            i <= n,
            depth <= i,
            (out@, depth as int) == render_fold(
                atoms.deep_view().take(i as int),
                indent_level as int,
            ),
        decreases n - i,
    {
        proof {
            let sv = atoms.deep_view();
            assert(sv.take(i + 1).drop_last() =~= sv.take(i as int));
            assert(sv.take(i + 1).last() == sv[i as int]);
            assert(render_fold(sv.take(i + 1), indent_level as int) == render_step(
                (out@, depth as int),
                sv[i as int],
                indent_level as int,
            ));
            assert(render_fold(sv.take(i + 1), indent_level as int).1 >= 0);
            assert(depth * indent_level <= n * indent_level) by (nonlinear_arith)
                requires
                    depth <= n,
            ;
        }
        let a = &atoms[i];
        match a {
            Atom::Empty => {},
            Atom::Leaf { content, .. } => {
                let trimmed = trim_end_str(content.as_str());
                out.append(trimmed.as_str());
            },
            Atom::Literal(t) => {
                out.append(t.as_str());
            },
            Atom::Space => {
                out.append(" ");
                proof {
                    reveal_strlit(" ");
                    assert(out@ =~= render_fold(
                        atoms.deep_view().take(i + 1),
                        indent_level as int,
                    ).0);
                }
            },
            Atom::Hardline => {
                out.append("\n");
                proof {
                    reveal_strlit("\n");
                }
                push_spaces(&mut out, depth * indent_level);
                proof {
                    assert(out@ =~= render_fold(
                        atoms.deep_view().take(i + 1),
                        indent_level as int,
                    ).0);
                }
            },
            Atom::Blankline => {
                out.append("\n\n");
                proof {
                    reveal_strlit("\n\n");
                }
                push_spaces(&mut out, depth * indent_level);
                proof {
                    assert(out@ =~= render_fold(
                        atoms.deep_view().take(i + 1),
                        indent_level as int,
                    ).0);
                }
            },
            Atom::IndentStart => {
                depth = depth + 1;
            },
            Atom::IndentEnd => {
                depth = depth - 1;
            },
            Atom::Softline { .. } => {},
        }
        i = i + 1;
    }
    proof {
        assert(atoms.deep_view().take(n as int) =~= atoms.deep_view());
    }
    Ok(out)
}

} // verus!
