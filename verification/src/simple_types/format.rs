//! The printed types of the inference engine, kept in one table, and their text:
//! unions and intersections with `∨` and `∧`, functions with `→`, records in
//! braces, tuples in round and lists in square brackets, references with `ref`
//! and `mut`.
use super::{literal_text, Literal, TypeId, TypeScheme};
use vstd::prelude::*;

verus! {

/// A printed type.
pub enum Type {
    /// ⊤ - Any type
    Top,
    /// ⊥ - Never type
    Bottom,
    Union { items: Vec<TypeId> },
    Intersection { items: Vec<TypeId> },
    Function { lhs: TypeId, rhs: TypeId },
    Record { fields: Vec<(String, TypeId)> },
    /// The type `body`, in which the variable `name` stands for the whole type.
    Recursive { name: String, body: TypeId },
    Variable { name: String },
    Literal { value: Literal },
    Primitive { name: String },
    Error,
    /// Function application, tuple indexing or record selection.
    Applicative { arg: TypeId, ret: TypeId, first_arg: Option<TypeId> },
    Tuple { items: Vec<TypeId> },
    List { item: TypeId },
    Ref { write: Option<TypeId>, read: Option<TypeId> },
    Module { members: Vec<(String, TypeScheme)> },
}

/// The element of an optional id, as a sequence of at most one.
pub open spec fn opt_type(o: Option<TypeId>) -> Seq<TypeId> {
    match o {
        Some(i) => seq![i],
        None => Seq::empty(),
    }
}

/// The printed types a printed type is shown with.
pub open spec fn shown_ids(t: Type) -> Seq<TypeId> {
    match t {
        Type::Union { items } => items@,
        Type::Intersection { items } => items@,
        Type::Function { lhs, rhs } => seq![lhs, rhs],
        Type::Record { fields } => fields@.map_values(|f: (String, TypeId)| f.1),
        Type::Recursive { body, .. } => seq![body],
        Type::Applicative { arg, ret, .. } => seq![arg, ret],
        Type::Tuple { items } => items@,
        Type::List { item } => seq![item],
        Type::Ref { write, read } => opt_type(read) + opt_type(write),
        _ => Seq::empty(),
    }
}

/// Ranks that decrease from each entry of the table to the entries it is shown
/// with, all of which the table holds.
pub open spec fn types_ranked(types: Seq<Type>, rk: spec_fn(TypeId) -> nat) -> bool {
    forall|i: int, k: int|
        0 <= i < types.len() && 0 <= k < shown_ids(types[i]).len() ==> (#[trigger] shown_ids(types[i])[k]).0
            < types.len() && rk(shown_ids(types[i])[k]) < rk(TypeId(i as usize))
}

/// No entry of the table is shown with itself, directly or through others.
pub open spec fn types_acyclic(types: Seq<Type>) -> bool {
    exists|rk: spec_fn(TypeId) -> nat| #[trigger] types_ranked(types, rk)
}

/// How deep the entries below `id` go, by one ranking of the table.
pub open spec fn type_rank(types: Seq<Type>, id: TypeId) -> nat {
    (choose|rk: spec_fn(TypeId) -> nat| #[trigger] types_ranked(types, rk))(id)
}

/// The texts of `items` with `sep` between two of them; `None` where one has
/// no text or is not ranked below `bound`.
pub open spec fn items_fmt(types: Seq<Type>, items: Seq<TypeId>, sep: Seq<char>, bound: nat) -> Option<Seq<char>>
    decreases bound, 0nat, items.len(),
{
    if items.len() == 0 {
        Some(Seq::empty())
    } else if type_rank(types, items.last()) >= bound {
        None
    } else {
        match (items_fmt(types, items.drop_last(), sep, bound), type_fmt(types, items.last())) {
            (Some(a), Some(b)) => Some(if items.len() == 1 {
                b
            } else {
                a + sep + b
            }),
            _ => None,
        }
    }
}

/// The texts of the fields `fields`, each as `name: type`, separated by a
/// comma and a space; `None` as in `items_fmt`.
pub open spec fn fields_fmt(types: Seq<Type>, fields: Seq<(String, TypeId)>, bound: nat) -> Option<Seq<char>>
    decreases bound, 0nat, fields.len(),
{
    if fields.len() == 0 {
        Some(Seq::empty())
    } else if type_rank(types, fields.last().1) >= bound {
        None
    } else {
        match (fields_fmt(types, fields.drop_last(), bound), type_fmt(types, fields.last().1)) {
            (Some(a), Some(b)) => {
                let f = fields.last().0@ + ": "@ + b;
                Some(if fields.len() == 1 {
                    f
                } else {
                    a + ", "@ + f
                })
            },
            _ => None,
        }
    }
}

/// The text of `sub` where it is ranked below `bound`.
pub open spec fn sub_fmt(types: Seq<Type>, sub: TypeId, bound: nat) -> Option<Seq<char>>
    decreases bound, 0nat, 0nat,
{
    if type_rank(types, sub) < bound {
        type_fmt(types, sub)
    } else {
        None
    }
}

/// `a + mid + b` where both have a text.
pub open spec fn around(a: Option<Seq<char>>, mid: Seq<char>, b: Option<Seq<char>>) -> Option<Seq<char>> {
    match (a, b) {
        (Some(x), Some(y)) => Some(x + mid + y),
        _ => None,
    }
}

/// `pre + a + post` where `a` has a text.
pub open spec fn wrap(pre: Seq<char>, a: Option<Seq<char>>, post: Seq<char>) -> Option<Seq<char>> {
    match a {
        Some(x) => Some(pre + x + post),
        None => None,
    }
}

/// The text of the printed type `id`; a module has none.
pub open spec fn type_fmt(types: Seq<Type>, id: TypeId) -> Option<Seq<char>>
    decreases type_rank(types, id), 1nat, 0nat,
{
    if id.0 >= types.len() {
        None
    } else {
        let r = type_rank(types, id);
        match types[id.0 as int] {
            Type::Top => Some("⊤"@),
            Type::Bottom => Some("⊥"@),
            Type::Union { items } => items_fmt(types, items@, " ∨ "@, r),
            Type::Intersection { items } => items_fmt(types, items@, " ∧ "@, r),
            Type::Function { lhs, rhs } => around(sub_fmt(types, lhs, r), " → "@, sub_fmt(types, rhs, r)),
            Type::Record { fields } => wrap("{"@, fields_fmt(types, fields@, r), "}"@),
            Type::Recursive { name, body } => wrap(Seq::empty(), sub_fmt(types, body, r), " as "@ + name@),
            Type::Variable { name } => Some(name@),
            Type::Literal { value } => Some(literal_text(value)),
            Type::Primitive { name } => Some(name@),
            Type::Error => Some("error"@),
            Type::Applicative { arg, ret, .. } => around(sub_fmt(types, arg, r), " -?-> "@, sub_fmt(types, ret, r)),
            Type::Tuple { items } => wrap("("@, items_fmt(types, items@, ", "@, r), ")"@),
            Type::List { item } => wrap("["@, sub_fmt(types, item, r), "]"@),
            Type::Ref { write, read } => match (read, write) {
                (Some(rd), Some(wr)) => if rd == wr {
                    wrap("refmut "@, sub_fmt(types, rd, r), Seq::empty())
                } else {
                    around(wrap("ref "@, sub_fmt(types, rd, r), Seq::empty()), " mut "@, sub_fmt(types, wr, r))
                },
                (Some(rd), None) => wrap("ref "@, sub_fmt(types, rd, r), Seq::empty()),
                (None, Some(wr)) => wrap("mut "@, sub_fmt(types, wr, r), Seq::empty()),
                (None, None) => Some("<invalid ref>"@),
            },
            Type::Module { .. } => None,
        }
    }
}

/// The table of printed types.
pub struct Types {
    types: Vec<Type>,
}

impl View for Types {
    type V = Seq<Type>;

    closed spec fn view(&self) -> Seq<Type> {
        self.types@
    }
}

impl Types {
    /// No printed type yet.
    pub fn new() -> (res: Self)
        ensures
            res@ == Seq::<Type>::empty(),
    {
        Types { types: Vec::new() }
    }

    /// Adds `ty` at the end; its id is its position.
    pub fn add_type(&mut self, ty: Type) -> (res: TypeId)
        ensures
            final(self)@ == old(self)@.push(ty),
            res.0 == old(self)@.len(),
    {
        let id = TypeId(self.types.len());
        self.types.push(ty);
        id
    }

    /// Appends the texts of `items` with `sep` between them.
    fn fmt_items(&self, items: &Vec<TypeId>, sep: &str, bound: Ghost<nat>, buf: &mut String)
        requires
            types_acyclic(self@),
            items_fmt(self@, items@, sep@, bound@) is Some,
        ensures
            final(buf)@ == old(buf)@ + items_fmt(self@, items@, sep@, bound@)->Some_0,
        decreases bound@, 0nat,
    {
        let n = items.len();
        let ghost types = self@;
        proof {
            lemma_items_fmt_prefix(types, items@, sep@, bound@, 0);
            assert(items@.take(0) =~= Seq::<TypeId>::empty());
        }
        for i in 0..n
            invariant
                n == items@.len(),
                types == self@,
                types_acyclic(types),
                items_fmt(types, items@, sep@, bound@) is Some,
                items_fmt(types, items@.take(i as int), sep@, bound@) is Some,
                buf@ == old(buf)@ + items_fmt(types, items@.take(i as int), sep@, bound@)->Some_0,
        {
            proof {
                lemma_items_fmt_prefix(types, items@, sep@, bound@, i + 1);
                assert(items@.take(i + 1).drop_last() =~= items@.take(i as int));
                assert(items@.take(i + 1).last() == items@[i as int]);
            }
            if i > 0 {
                buf.append(sep);
            }
            self.fmt(items[i], buf);
            proof {
                assert(buf@ =~= old(buf)@ + items_fmt(types, items@.take(i + 1), sep@, bound@)->Some_0);
            }
        }
        proof {
            assert(items@.take(n as int) =~= items@);
        }
    }

    /// Appends the texts of the fields `fields`.
    fn fmt_fields(&self, fields: &Vec<(String, TypeId)>, bound: Ghost<nat>, buf: &mut String)
        requires
            types_acyclic(self@),
            fields_fmt(self@, fields@, bound@) is Some,
        ensures
            final(buf)@ == old(buf)@ + fields_fmt(self@, fields@, bound@)->Some_0,
        decreases bound@, 0nat,
    {
        let n = fields.len();
        let ghost types = self@;
        proof {
            lemma_fields_fmt_prefix(types, fields@, bound@, 0);
            assert(fields@.take(0) =~= Seq::<(String, TypeId)>::empty());
        }
        for i in 0..n
            invariant
                n == fields@.len(),
                types == self@,
                types_acyclic(types),
                fields_fmt(types, fields@, bound@) is Some,
                fields_fmt(types, fields@.take(i as int), bound@) is Some,
                buf@ == old(buf)@ + fields_fmt(types, fields@.take(i as int), bound@)->Some_0,
        {
            proof {
                lemma_fields_fmt_prefix(types, fields@, bound@, i + 1);
                assert(fields@.take(i + 1).drop_last() =~= fields@.take(i as int));
                assert(fields@.take(i + 1).last() == fields@[i as int]);
            }
            if i > 0 {
                buf.append(", ");
            }
            buf.append(fields[i].0.as_str());
            buf.append(": ");
            self.fmt(fields[i].1, buf);
            proof {
                assert(buf@ =~= old(buf)@ + fields_fmt(types, fields@.take(i + 1), bound@)->Some_0);
            }
        }
        proof {
            assert(fields@.take(n as int) =~= fields@);
        }
    }

    /// Appends the text of the printed type `ty` to `buf`.
    pub fn fmt(&self, ty: TypeId, buf: &mut String)
        requires
            types_acyclic(self@),
            type_fmt(self@, ty) is Some,
        ensures
            final(buf)@ == old(buf)@ + type_fmt(self@, ty)->Some_0,
        decreases type_rank(self@, ty), 1nat,
    {
        let ghost r = type_rank(self@, ty);
        match &self.types[ty.0] {
            Type::Top => buf.append("⊤"),
            Type::Bottom => buf.append("⊥"),
            Type::Union { items } => self.fmt_items(items, " ∨ ", Ghost(r), buf),
            Type::Intersection { items } => self.fmt_items(items, " ∧ ", Ghost(r), buf),
            Type::Function { lhs, rhs } => {
                self.fmt(*lhs, buf);
                buf.append(" → ");
                self.fmt(*rhs, buf);
            },
            Type::Record { fields } => {
                buf.append("{");
                self.fmt_fields(fields, Ghost(r), buf);
                buf.append("}");
            },
            Type::Recursive { name, body } => {
                self.fmt(*body, buf);
                buf.append(" as ");
                buf.append(name.as_str());
            },
            Type::Variable { name } => buf.append(name.as_str()),
            Type::Literal { value } => {
                let t = value.to_string();
                buf.append(t.as_str());
            },
            Type::Primitive { name } => buf.append(name.as_str()),
            Type::Error => buf.append("error"),
            Type::Applicative { arg, ret, .. } => {
                self.fmt(*arg, buf);
                buf.append(" -?-> ");
                self.fmt(*ret, buf);
            },
            Type::Tuple { items } => {
                buf.append("(");
                self.fmt_items(items, ", ", Ghost(r), buf);
                buf.append(")");
            },
            Type::List { item } => {
                buf.append("[");
                self.fmt(*item, buf);
                buf.append("]");
            },
            Type::Ref { write, read } => match (read, write) {
                (Some(rd), Some(wr)) => {
                    if rd.0 == wr.0 {
                        buf.append("refmut ");
                        self.fmt(*rd, buf);
                    } else {
                        buf.append("ref ");
                        self.fmt(*rd, buf);
                        buf.append(" mut ");
                        self.fmt(*wr, buf);
                    }
                },
                (Some(rd), None) => {
                    buf.append("ref ");
                    self.fmt(*rd, buf);
                },
                (None, Some(wr)) => {
                    buf.append("mut ");
                    self.fmt(*wr, buf);
                },
                (None, None) => buf.append("<invalid ref>"),
            },
            Type::Module { .. } => {},
        }
    }

    /// The text of the printed type `ty`.
    pub fn type_text(&self, ty: TypeId) -> (res: String)
        requires
            types_acyclic(self@),
            type_fmt(self@, ty) is Some,
        ensures
            res@ == type_fmt(self@, ty)->Some_0,
    {
        let mut buf = String::new();
        self.fmt(ty, &mut buf);
        buf
    }
}

/// A prefix of items that has a text where all of them have one.
proof fn lemma_items_fmt_prefix(types: Seq<Type>, items: Seq<TypeId>, sep: Seq<char>, bound: nat, i: int)
    requires
        0 <= i <= items.len(),
        items_fmt(types, items, sep, bound) is Some,
    ensures
        items_fmt(types, items.take(i), sep, bound) is Some,
        i < items.len() ==> type_rank(types, items[i]) < bound && type_fmt(types, items[i]) is Some,
    decreases items.len(),
{
    if i < items.len() {
        assert(items.drop_last().take(i) =~= items.take(i)) by {
            if i < items.len() - 1 {
            }
        };
        if i < items.len() - 1 {
            lemma_items_fmt_prefix(types, items.drop_last(), sep, bound, i);
            assert(items.drop_last()[i] == items[i]);
        }
    } else {
        assert(items.take(i) =~= items);
    }
}

/// A prefix of fields that has a text where all of them have one.
proof fn lemma_fields_fmt_prefix(types: Seq<Type>, fields: Seq<(String, TypeId)>, bound: nat, i: int)
    requires
        0 <= i <= fields.len(),
        fields_fmt(types, fields, bound) is Some,
    ensures
        fields_fmt(types, fields.take(i), bound) is Some,
        i < fields.len() ==> type_rank(types, fields[i].1) < bound && type_fmt(types, fields[i].1) is Some,
    decreases fields.len(),
{
    if i < fields.len() {
        assert(fields.drop_last().take(i) =~= fields.take(i));
        if i < fields.len() - 1 {
            lemma_fields_fmt_prefix(types, fields.drop_last(), bound, i);
            assert(fields.drop_last()[i] == fields[i]);
        }
    } else {
        assert(fields.take(i) =~= fields);
    }
}

} // verus!
