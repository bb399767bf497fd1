//! The names type variables are printed with.
use super::canonical::{CanonId, Canonical, CanonicalView, Canonicalized};
use crate::simple_types::literal_view_text;
use crate::text::{decimal, lemma_decimal_injective, lemma_decimal_shape, push_decimal};
use vstd::prelude::*;

verus! {

/// The `k`-th letter of the alphabet, for `k < 26`.
pub open spec fn letter(k: nat) -> char {
    (97 + k) as char
}

/// The name of type variable `i`: a quote and the letter for `i` modulo 26,
/// followed, from `i = 26` on, by the number of the round of the alphabet
/// (`'a`, ..., `'z`, `'a2`, ..., `'z2`, `'a3`, ...).
pub open spec fn letters_name(i: nat) -> Seq<char> {
    seq!['\'', letter(i % 26)] + if i < 26 {
        Seq::empty()
    } else {
        decimal(i / 26 + 1)
    }
}

/// The name of type variable `i`, as types are printed.
pub fn variable_letters(i: usize) -> (res: String)
    ensures
        res@ == letters_name(i as nat),
{
    proof {
        reveal_strlit("abcdefghijklmnopqrstuvwxyz");
        reveal_strlit("'");
    }
    let letters = "abcdefghijklmnopqrstuvwxyz";
    let k = i % 26;
    assert(letters@.len() == 26);
    assert(letters.is_ascii());
    let letter_str = letters.substring_ascii(k, k + 1);
    assert(letter_str@ =~= seq![letter(k as nat)]);
    let mut result = String::from_str("'");
    result.append(letter_str);
    assert(result@ =~= seq!['\'', letter(i as nat % 26)]);
    if i < 26 {
        assert(result@ =~= letters_name(i as nat));
        return result;
    }
    let mut rest = i;
    let mut num: usize = 1;
    while rest >= 26
        invariant
            i >= 26,
            rest <= i,
            num == (i - rest) / 26 + 1,
            (i - rest) % 26 == 0,
            num <= i,
        decreases rest,
    {
        rest = rest - 26;
        num = num + 1;
    }
    assert(num == i / 26 + 1) by (nonlinear_arith)
        requires
            num == (i - rest) / 26 + 1,
            (i - rest) % 26 == 0,
            rest < 26,
            rest <= i,
    {
        assert(i == (i - rest) + rest);
    }
    push_decimal(&mut result, num);
    assert(result@ =~= letters_name(i as nat));
    result
}

/// Different type variables get different names.
pub proof fn law_names_are_distinct(i: nat, j: nat)
    requires
        i != j,
    ensures
        letters_name(i) != letters_name(j),
{
    if letters_name(i) == letters_name(j) {
        assert(letters_name(i)[1] == letter(i % 26));
        assert(letters_name(j)[1] == letter(j % 26));
        assert(i % 26 == j % 26);
        if i >= 26 && j >= 26 {
            let di = decimal(i / 26 + 1);
            let dj = decimal(j / 26 + 1);
            assert(letters_name(i).subrange(2, letters_name(i).len() as int) =~= di);
            assert(letters_name(j).subrange(2, letters_name(j).len() as int) =~= dj);
            lemma_decimal_injective(i / 26 + 1, j / 26 + 1);
            assert(i == 26 * (i / 26) + i % 26);
            assert(j == 26 * (j / 26) + j % 26);
        } else if i >= 26 {
            lemma_decimal_shape(i / 26 + 1);
            assert(letters_name(i).len() >= 3);
        } else if j >= 26 {
            lemma_decimal_shape(j / 26 + 1);
            assert(letters_name(j).len() >= 3);
        }
    }
}

/// The element of an optional id, as a sequence of at most one.
pub open spec fn opt_canon(o: Option<CanonId>) -> Seq<CanonId> {
    match o {
        Some(c) => seq![c],
        None => Seq::empty(),
    }
}

/// The types a canonical type refers to.
pub open spec fn canon_children(v: CanonicalView) -> Seq<CanonId> {
    match v {
        CanonicalView::As(_, c, _) => seq![c],
        CanonicalView::Or(ids, _) => ids,
        CanonicalView::And(ids, _) => ids,
        CanonicalView::Tuple { items, .. } => items,
        CanonicalView::List { item, .. } => seq![item],
        CanonicalView::Func { pattern, ret, .. } => seq![pattern, ret],
        CanonicalView::Record { fields, proto, .. } => fields.map_values(|f: (Seq<char>, CanonId)| f.1) + opt_canon(proto),
        CanonicalView::Reference { read, write, .. } => opt_canon(read) + opt_canon(write),
        CanonicalView::Applicable { args, ret, .. } => args.push(ret),
        _ => Seq::empty(),
    }
}

/// A table that can be printed: each type refers only to types stored before
/// it, and every reference can be read or written.
pub open spec fn printable(table: Seq<CanonicalView>) -> bool {
    &&& forall|p: int, k: int|
        0 <= p < table.len() && 0 <= k < canon_children(table[p]).len() ==> (#[trigger] canon_children(table[p])[k]).0
            < p
    &&& forall|p: int|
        0 <= p < table.len() ==> !(#[trigger] table[p] matches CanonicalView::Reference { read: None, write: None, .. })
}

/// The text of the type `c`, where it is below `bound`.
pub open spec fn child_text(table: Seq<CanonicalView>, c: CanonId, bound: nat) -> Seq<char>
    decreases bound, 0nat, 0nat,
{
    if c.0 < bound {
        canon_text(table, c)
    } else {
        Seq::empty()
    }
}

/// The texts of the types `ids`, `sep` between two of them.
pub open spec fn join_ids(table: Seq<CanonicalView>, ids: Seq<CanonId>, sep: Seq<char>, bound: nat) -> Seq<char>
    decreases bound, 0nat, ids.len(),
{
    if ids.len() == 0 {
        Seq::empty()
    } else if ids.len() == 1 {
        child_text(table, ids[0], bound)
    } else {
        join_ids(table, ids.drop_last(), sep, bound) + sep + child_text(table, ids.last(), bound)
    }
}

/// The fields of a record type, each as its name, a colon and its type,
/// separated by a comma and a space.
pub open spec fn join_fields(table: Seq<CanonicalView>, fields: Seq<(Seq<char>, CanonId)>, bound: nat) -> Seq<char>
    decreases bound, 0nat, fields.len(),
{
    if fields.len() == 0 {
        Seq::empty()
    } else {
        let f = fields.last();
        let shown = f.0 + ": "@ + child_text(table, f.1, bound);
        if fields.len() == 1 {
            shown
        } else {
            join_fields(table, fields.drop_last(), bound) + ", "@ + shown
        }
    }
}

/// How the type `id` of `table` is printed.
pub open spec fn canon_text(table: Seq<CanonicalView>, id: CanonId) -> Seq<char>
    decreases id.0, 1nat, 0nat,
{
    if id.0 >= table.len() {
        Seq::empty()
    } else {
        let b = id.0 as nat;
        match table[id.0 as int] {
            CanonicalView::Todo(t, _) => "TODO: "@ + t,
            CanonicalView::Any(None, _) => "Any"@,
            CanonicalView::Literal(lit, _) => literal_view_text(lit),
            CanonicalView::Any(Some(i), _) => letters_name(i as nat),
            CanonicalView::As(i, c, _) => "("@ + child_text(table, c, b) + ") as "@ + letters_name(i as nat),
            CanonicalView::Or(ids, _) => if ids.len() == 1 {
                "or<"@ + child_text(table, ids[0], b) + ">"@
            } else {
                join_ids(table, ids, " | "@, b)
            },
            CanonicalView::And(ids, _) => if ids.len() == 1 {
                "and<"@ + child_text(table, ids[0], b) + ">"@
            } else {
                join_ids(table, ids, " & "@, b)
            },
            CanonicalView::Wildcard(_) => "_"@,
            CanonicalView::Error(_) => "Error"@,
            CanonicalView::Primitive(name, _) => name,
            CanonicalView::Tuple { items, .. } => "("@ + join_ids(table, items, ", "@, b) + ")"@,
            CanonicalView::List { item, .. } => "["@ + child_text(table, item, b) + "]"@,
            CanonicalView::Func { pattern, ret, .. } => child_text(table, pattern, b) + " -> "@ + child_text(table, ret, b),
            CanonicalView::Applicable { args, ret, .. } => "Applicable("@ + join_ids(table, args, ", "@, b) + " -> "@
                + child_text(table, ret, b) + ")"@,
            CanonicalView::Record { fields, .. } => "{"@ + join_fields(table, fields, b) + "}"@,
            CanonicalView::Reference { read: Some(r), write: Some(w), .. } => if r == w {
                "refmut<"@ + child_text(table, r, b) + ">"@
            } else {
                "ref<"@ + child_text(table, r, b) + ", mut "@ + child_text(table, w, b) + ">"@
            },
            CanonicalView::Reference { read: Some(r), write: None, .. } => "ref<"@ + child_text(table, r, b) + ">"@,
            CanonicalView::Reference { read: None, write: Some(w), .. } => "mut<"@ + child_text(table, w, b) + ">"@,
            CanonicalView::Reference { read: None, write: None, .. } => Seq::empty(),
        }
    }
}

/// Appends to `out` the texts of the types `ids`, `sep` between two of them.
fn print_ids(out: &mut String, ids: &Vec<CanonId>, sep: &str, canonical: &Canonicalized, bound: CanonId)
    requires
        printable(canonical.table()),
        bound.0 < canonical.table().len(),
        forall|k: int| 0 <= k < ids@.len() ==> (#[trigger] ids@[k]).0 < bound.0,
    ensures
        final(out)@ == old(out)@ + join_ids(canonical.table(), ids@, sep@, bound.0 as nat),
    decreases bound.0, 0nat,
{
    let ghost start = out@;
    let n = ids.len();
    assert(ids@.take(0) =~= Seq::<CanonId>::empty());
    assert(start + Seq::<char>::empty() =~= start);
    for i in 0..n
        invariant
            n == ids@.len(),
            printable(canonical.table()),
            bound.0 < canonical.table().len(),
            forall|k: int| 0 <= k < ids@.len() ==> (#[trigger] ids@[k]).0 < bound.0,
            out@ == start + join_ids(canonical.table(), ids@.take(i as int), sep@, bound.0 as nat),
    {
        proof {
            assert(ids@.take(i + 1).drop_last() =~= ids@.take(i as int));
            assert(ids@.take(i + 1).last() == ids@[i as int]);
        }
        let ghost prev = join_ids(canonical.table(), ids@.take(i as int), sep@, bound.0 as nat);
        let ghost shown = canon_text(canonical.table(), ids@[i as int]);
        assert(child_text(canonical.table(), ids@[i as int], bound.0 as nat) == shown);
        if i > 0 {
            out.append(sep);
        }
        print_canon(out, ids[i], canonical);
        proof {
            if i == 0 {
                assert(ids@.take(1)[0] == ids@[0]);
                assert(join_ids(canonical.table(), ids@.take(1), sep@, bound.0 as nat) == shown);
                assert(out@ =~= start + shown);
            } else {
                assert(join_ids(canonical.table(), ids@.take(i + 1), sep@, bound.0 as nat) == prev + sep@ + shown);
                assert(out@ =~= start + prev + sep@ + shown);
            }
        }
    }
    assert(ids@.take(n as int) =~= ids@);
}

/// Appends to `out` the fields of a record type, each as its name, a colon and
/// its type, separated by a comma and a space.
fn print_fields(out: &mut String, fields: &Vec<(String, CanonId)>, canonical: &Canonicalized, bound: CanonId)
    requires
        printable(canonical.table()),
        bound.0 < canonical.table().len(),
        forall|k: int| 0 <= k < fields@.len() ==> (#[trigger] fields@[k]).1.0 < bound.0,
    ensures
        final(out)@ == old(out)@ + join_fields(
            canonical.table(),
            crate::types::canonical::fields_view(fields@),
            bound.0 as nat,
        ),
    decreases bound.0, 0nat,
{
    let ghost table = canonical.table();
    let ghost b = bound.0 as nat;
    let ghost fs = crate::types::canonical::fields_view(fields@);
    let ghost mid = out@;
    let n = fields.len();
    assert(fs.take(0) =~= Seq::<(Seq<char>, CanonId)>::empty());
    assert(mid + Seq::<char>::empty() =~= mid);
    for i in 0..n
        invariant
            n == fields@.len(),
            printable(table),
            table == canonical.table(),
            bound.0 < table.len(),
            b == bound.0,
            fs == crate::types::canonical::fields_view(fields@),
            forall|k: int| 0 <= k < fields@.len() ==> (#[trigger] fields@[k]).1.0 < bound.0,
            out@ == mid + join_fields(table, fs.take(i as int), b),
    {
        let ghost prev = join_fields(table, fs.take(i as int), b);
        proof {
            assert(fs.take(i + 1).drop_last() =~= fs.take(i as int));
            assert(fs.take(i + 1).last() == fs[i as int]);
            assert(fs[i as int] == (fields@[i as int].0@, fields@[i as int].1));
        }
        let ghost shown = fields@[i as int].0@ + ": "@ + canon_text(table, fields@[i as int].1);
        assert(child_text(table, fields@[i as int].1, b) == canon_text(table, fields@[i as int].1));
        if i > 0 {
            out.append(", ");
        }
        out.append(fields[i].0.as_str());
        out.append(": ");
        print_canon(out, fields[i].1, canonical);
        proof {
            if i == 0 {
                assert(join_fields(table, fs.take(1), b) == shown);
                assert(out@ =~= mid + shown);
            } else {
                assert(join_fields(table, fs.take(i + 1), b) == prev + ", "@ + shown);
                assert(out@ =~= mid + prev + ", "@ + shown);
            }
        }
    }
    assert(fs.take(n as int) =~= fs);
}

/// Appends to `out` how a reference type that reads as `read` and is written
/// as `write` is printed.
fn print_reference(
    out: &mut String,
    read: Option<CanonId>,
    write: Option<CanonId>,
    canonical: &Canonicalized,
    bound: CanonId,
)
    requires
        printable(canonical.table()),
        bound.0 < canonical.table().len(),
        read matches Some(r) ==> r.0 < bound.0,
        write matches Some(w) ==> w.0 < bound.0,
        read is Some || write is Some,
    ensures
        final(out)@ == old(out)@ + match (read, write) {
            (Some(r), Some(w)) => if r == w {
                "refmut<"@ + canon_text(canonical.table(), r) + ">"@
            } else {
                "ref<"@ + canon_text(canonical.table(), r) + ", mut "@ + canon_text(canonical.table(), w) + ">"@
            },
            (Some(r), None) => "ref<"@ + canon_text(canonical.table(), r) + ">"@,
            (None, Some(w)) => "mut<"@ + canon_text(canonical.table(), w) + ">"@,
            (None, None) => Seq::empty(),
        },
    decreases bound.0, 0nat,
{
    match (read, write) {
        (Some(read), Some(write)) => {
            if read == write {
                out.append("refmut<");
                print_canon(out, read, canonical);
                out.append(">");
            } else {
                out.append("ref<");
                print_canon(out, read, canonical);
                out.append(", mut ");
                print_canon(out, write, canonical);
                out.append(">");
            }
        },
        (Some(read), None) => {
            out.append("ref<");
            print_canon(out, read, canonical);
            out.append(">");
        },
        (None, Some(write)) => {
            out.append("mut<");
            print_canon(out, write, canonical);
            out.append(">");
        },
        (None, None) => {},
    }
}

/// Appends to `out` how the type `id` of `canonical` is printed.
pub fn print_canon(out: &mut String, id: CanonId, canonical: &Canonicalized)
    requires
        printable(canonical.table()),
        id.0 < canonical.table().len(),
    ensures
        final(out)@ == old(out)@ + canon_text(canonical.table(), id),
    decreases id.0, 1nat,
{
    let ghost table = canonical.table();
    let ghost b = id.0 as nat;
    let ghost start = out@;
    let c = canonical.get(id);
    proof {
        assert(forall|k: int| 0 <= k < canon_children(table[id.0 as int]).len() ==> (#[trigger] canon_children(table[id.0 as int])[k]).0 < id.0);
    }
    match c {
        Canonical::Todo(todo, _) => {
            out.append("TODO: ");
            out.append(todo.as_str());
        },
        Canonical::Any(None, _) => {
            out.append("Any");
        },
        Canonical::Literal(lit, _) => {
            out.append(lit.to_string().as_str());
        },
        Canonical::Any(Some(i), _) => {
            out.append(variable_letters(*i).as_str());
        },
        Canonical::As(i, inner, _) => {
            assert(canon_children(table[id.0 as int])[0] == *inner);
            out.append("(");
            print_canon(out, *inner, canonical);
            out.append(") as ");
            out.append(variable_letters(*i).as_str());
        },
        Canonical::Or(ids, _) => {
            if ids.len() == 1 {
                assert(canon_children(table[id.0 as int])[0] == ids@[0]);
                out.append("or<");
                print_canon(out, ids[0], canonical);
                out.append(">");
            } else {
                print_ids(out, ids, " | ", canonical, id);
            }
        },
        Canonical::And(ids, _) => {
            if ids.len() == 1 {
                assert(canon_children(table[id.0 as int])[0] == ids@[0]);
                out.append("and<");
                print_canon(out, ids[0], canonical);
                out.append(">");
            } else {
                print_ids(out, ids, " & ", canonical, id);
            }
        },
        Canonical::Wildcard(_) => {
            out.append("_");
        },
        Canonical::Error(_) => {
            out.append("Error");
        },
        Canonical::Primitive(name, _) => {
            out.append(name.as_str());
        },
        Canonical::Tuple { items, .. } => {
            out.append("(");
            print_ids(out, items, ", ", canonical, id);
            out.append(")");
        },
        Canonical::List { item, .. } => {
            assert(canon_children(table[id.0 as int])[0] == *item);
            out.append("[");
            print_canon(out, *item, canonical);
            out.append("]");
        },
        Canonical::Func { pattern, ret, .. } => {
            assert(canon_children(table[id.0 as int])[0] == *pattern);
            assert(canon_children(table[id.0 as int])[1] == *ret);
            print_canon(out, *pattern, canonical);
            out.append(" -> ");
            print_canon(out, *ret, canonical);
        },
        Canonical::Applicable { args, ret, .. } => {
            assert(forall|k: int| 0 <= k < args@.len() ==> canon_children(table[id.0 as int])[k] == #[trigger] args@[k]);
            assert(canon_children(table[id.0 as int])[args@.len() as int] == *ret);
            out.append("Applicable(");
            print_ids(out, args, ", ", canonical, id);
            out.append(" -> ");
            print_canon(out, *ret, canonical);
            out.append(")");
        },
        Canonical::Record { fields, .. } => {
            proof {
                let fs = table[id.0 as int]->Record_fields;
                assert(fs == crate::types::canonical::fields_view(fields@));
                assert forall|k: int| 0 <= k < fields@.len() implies (#[trigger] fields@[k]).1.0 < id.0 by {
                    assert(canon_children(table[id.0 as int])[k] == fs[k].1);
                    assert(fs[k].1 == fields@[k].1);
                }
            }
            out.append("{");
            print_fields(out, fields, canonical, id);
            out.append("}");
        },
        Canonical::Reference { read, write, .. } => {
            proof {
                if let Some(r) = read {
                    assert(canon_children(table[id.0 as int])[0] == r);
                }
                if let Some(w) = write {
                    assert(canon_children(table[id.0 as int])[opt_canon(*read).len() as int] == w);
                }
            }
            print_reference(out, *read, *write, canonical, id);
        },
    }
}

} // verus!
