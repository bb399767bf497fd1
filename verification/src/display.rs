//! The text of S-expressions as the toolchain prints them: lists in round
//! brackets, items separated by a space, or, in the alternate form, each item
//! after the first on a line of its own, indented two more columns per level.
//! A number is shown by the text it was written with.
use crate::ast::{emit, law_boolean_node, CstNode, SExp, SExpId, SExpView, ASTS};
use crate::source::SourceId;
use crate::patterns::{acyclic, lemma_items_below, node_at, rank};
use vstd::prelude::*;

verus! {

/// `n` spaces.
pub open spec fn spaces(n: nat) -> Seq<char>
    decreases n,
{
    if n == 0 {
        Seq::empty()
    } else {
        spaces((n - 1) as nat).push(' ')
    }
}

/// What separates two items of a list shown at width `width`.
pub open spec fn separator(alternate: bool, width: nat) -> Seq<char> {
    if alternate {
        seq!['\n'] + spaces(width)
    } else {
        seq![' ']
    }
}

/// The text of the S-expression `id`; a list's items are shown at a width two
/// more than the list's.
pub open spec fn display(asts: ASTS, id: SExpId, alternate: bool, width: nat) -> Seq<char>
    decreases rank(asts, id), 1nat, 0nat,
{
    match node_at(asts, id).0 {
        SExpView::Number(n) => n,
        SExpView::String(s) => "\""@ + s + "\""@,
        SExpView::Symbol(s) => s,
        SExpView::Keyword(k) => ":"@ + k,
        SExpView::Bool(b) => if b {
            "true"@
        } else {
            "false"@
        },
        SExpView::Error => "<Error>"@,
        SExpView::List(items) => "("@ + display_items(asts, items, alternate, width + 2, rank(asts, id)) + ")"@,
    }
}

/// The texts of `items` at width `width`, with the separator between two of
/// them; only items ranked below `bound` are looked into.
pub open spec fn display_items(asts: ASTS, items: Seq<SExpId>, alternate: bool, width: nat, bound: nat) -> Seq<char>
    decreases bound, 0nat, items.len(),
{
    if items.len() == 0 {
        Seq::empty()
    } else {
        let last = items.last();
        let shown = if rank(asts, last) < bound {
            display(asts, last, alternate, width)
        } else {
            Seq::empty()
        };
        if items.len() == 1 {
            shown
        } else {
            display_items(asts, items.drop_last(), alternate, width, bound) + separator(alternate, width) + shown
        }
    }
}

/// A boolean is shown as `true` where it holds and as `false` where it does not,
/// whatever the form and the width.
pub proof fn law_display_boolean(asts: ASTS, id: SExpId, alternate: bool, width: nat)
    requires
        node_at(asts, id).0 is Bool,
    ensures
        display(asts, id, alternate, width) == (if node_at(asts, id).0->Bool_0 {
            "true"@
        } else {
            "false"@
        }),
{
}

/// Reading back the text a boolean is shown as gives the same boolean: a
/// boolean node of the concrete tree whose text is what `display` shows for
/// `Bool(b)` reads as `Bool(b)`.
pub proof fn law_boolean_round_trip(
    asts: ASTS,
    id: SExpId,
    alternate: bool,
    width: nat,
    node: CstNode,
    src: SourceId,
    gen: nat,
    base: nat,
)
    requires
        node_at(asts, id).0 is Bool,
        node.kind@ == "boolean"@,
        node.text matches Ok(t) && t@ == display(asts, id, alternate, width),
    ensures
        emit(node, src, gen, base) matches Ok(ns) && ns.len() == 1 && ns[0].0 == node_at(asts, id).0,
{
    law_boolean_node(node, src, gen, base);
    reveal_strlit("true");
    reveal_strlit("false");
    assert("false"@ != "true"@) by {
        assert("false"@[0] != "true"@[0]);
    }
}

/// Atoms are shown by their text: a symbol as it is, a keyword after a colon, a
/// string between double quotes, a number by the text it was written with, the
/// error as `<Error>`; a list between round brackets.
pub proof fn law_display_atoms(asts: ASTS, id: SExpId, alternate: bool, width: nat)
    ensures
        node_at(asts, id).0 matches SExpView::Symbol(s) ==> display(asts, id, alternate, width) == s,
        node_at(asts, id).0 matches SExpView::Keyword(k) ==> display(asts, id, alternate, width) == seq![':'] + k,
        node_at(asts, id).0 matches SExpView::String(t) ==> display(asts, id, alternate, width) == seq!['"'] + t
            + seq!['"'],
        node_at(asts, id).0 matches SExpView::Number(n) ==> display(asts, id, alternate, width) == n,
        node_at(asts, id).0 is Error ==> display(asts, id, alternate, width) == seq!['<', 'E', 'r', 'r', 'o', 'r', '>'],
        node_at(asts, id).0 is List ==> display(asts, id, alternate, width).len() >= 2 && display(
            asts,
            id,
            alternate,
            width,
        )[0] == '(' && display(asts, id, alternate, width).last() == ')',
{
    reveal_strlit(":");
    reveal_strlit("\"");
    reveal_strlit("<Error>");
    reveal_strlit("(");
    reveal_strlit(")");
    if node_at(asts, id).0 is Keyword {
        assert(":"@ =~= seq![':']);
    }
    if node_at(asts, id).0 is String {
        assert("\""@ =~= seq!['"']);
    }
    if node_at(asts, id).0 is Error {
        assert("<Error>"@ =~= seq!['<', 'E', 'r', 'r', 'o', 'r', '>']);
    }
}

/// Appends `n` spaces to `out`.
fn push_spaces(out: &mut String, n: usize)
    ensures
        final(out)@ == old(out)@ + spaces(n as nat),
{
    let mut i: usize = 0;
    while i < n
        invariant
            i <= n,
            out@ == old(out)@ + spaces(i as nat),
        decreases n - i,
    {
        let ghost before = out@;
        out.append(" ");
        i = i + 1;
        proof {
            assert(" "@ =~= seq![' ']) by {
                reveal_strlit(" ");
            }
            assert(spaces(i as nat) == spaces((i - 1) as nat).push(' '));
            assert(out@ =~= old(out)@ + spaces(i as nat));
        }
    }
}

/// The text of the S-expression `id`, at width `width`, in the alternate form
/// where `alternate` holds.
pub fn display_text(asts: &ASTS, id: SExpId, alternate: bool, width: usize) -> (res: String)
    requires
        acyclic(*asts),
        asts.contains(id),
        width + 2 * rank(*asts, id) + 2 <= usize::MAX,
    ensures
        res@ == display(*asts, id, alternate, width as nat),
    decreases rank(*asts, id),
{
    let e = asts.get(id);
    match &e.item {
        SExp::Number(n) => n.clone(),
        SExp::String(s) => {
            let mut out = String::from_str("\"");
            out.append(s.as_str());
            out.append("\"");
            out
        },
        SExp::Symbol(s) => s.clone(),
        SExp::Keyword(k) => {
            let mut out = String::from_str(":");
            out.append(k.as_str());
            out
        },
        SExp::Bool(b) => if *b {
            String::from_str("true")
        } else {
            String::from_str("false")
        },
        SExp::Error => String::from_str("<Error>"),
        SExp::List(items) => {
            proof {
                lemma_items_below(*asts, id);
            }
            let inner_width = width + 2;
            let mut out = String::from_str("(");
            let n = items.len();
            let mut inner = String::new();
            assert(items@.take(0) =~= Seq::<SExpId>::empty());
            for i in 0..n
                invariant
                    n == items@.len(),
                    acyclic(*asts),
                    inner_width == width + 2,
                    width + 2 * rank(*asts, id) + 2 <= usize::MAX,
                    items@ == crate::ast::items_of(node_at(*asts, id).0),
                    forall|k: int| 0 <= k < items@.len() ==> {
                        &&& asts.contains(#[trigger] items@[k])
                        &&& rank(*asts, items@[k]) < rank(*asts, id)
                    },
                    inner@ == display_items(*asts, items@.take(i as int), alternate, inner_width as nat, rank(*asts, id)),
            {
                proof {
                    assert(items@.take(i + 1).drop_last() =~= items@.take(i as int));
                    assert(items@.take(i + 1).last() == items@[i as int]);
                    assert(rank(*asts, items@[i as int]) < rank(*asts, id));
                }
                let shown = display_text(asts, items[i], alternate, inner_width);
                if i > 0 {
                    if alternate {
                        inner.append("\n");
                        push_spaces(&mut inner, inner_width);
                    } else {
                        inner.append(" ");
                    }
                }
                inner.append(shown.as_str());
                proof {
                    let prev = display_items(*asts, items@.take(i as int), alternate, inner_width as nat, rank(*asts, id));
                    if i > 0 {
                        if alternate {
                            assert(seq!['\n'] =~= "\n"@) by {
                                reveal_strlit("\n");
                            }
                        } else {
                            assert(seq![' '] =~= " "@) by {
                                reveal_strlit(" ");
                            }
                        }
                        assert(inner@ =~= prev + separator(alternate, inner_width as nat) + shown@);
                    }
                }
            }
            assert(items@.take(n as int) =~= items@);
            out.append(inner.as_str());
            out.append(")");
            out
        },
    }
}

} // verus!
