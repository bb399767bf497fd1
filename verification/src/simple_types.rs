//! Identifiers, polarities and type schemes of the inference engine, and the
//! tables that give each named type variable of a signature one node.
use crate::patterns::{debug_str, str_debug};
use crate::source::Span;
use crate::text::{decimal, push_decimal};
use crate::types::printing::{law_names_are_distinct, letters_name, variable_letters};
use std::collections::HashMap;
use vstd::prelude::*;

pub mod format;

verus! {

broadcast use vstd::std_specs::hash::group_hash_axioms;

/// A node of inferred types.
#[derive(Debug, Clone, Copy, PartialEq, Eq, Hash, Structural)]
pub struct InferedTypeId(pub usize);

/// A type variable.
#[derive(Debug, Clone, Copy, PartialEq, Eq, Hash, Structural)]
pub struct VarId(pub usize);

/// A node of printed types.
#[derive(Debug, Clone, Copy, PartialEq, Eq, Hash, Structural)]
pub struct TypeId(pub usize);

/// Whether a type stands where values are produced or where they are consumed.
#[derive(Clone, Copy, PartialEq, Eq, Hash, Debug, Structural)]
pub enum Polarity {
    Positive,
    Negative,
}

/// The opposite polarity.
pub open spec fn spec_negate(p: Polarity) -> Polarity {
    match p {
        Polarity::Positive => Polarity::Negative,
        Polarity::Negative => Polarity::Positive,
    }
}

impl Polarity {
    /// The opposite polarity.
    pub fn negate(self) -> (res: Self)
        ensures
            res == spec_negate(self),
    {
        match self {
            Polarity::Positive => Polarity::Negative,
            Polarity::Negative => Polarity::Positive,
        }
    }
}

/// Negating twice gives the polarity back, and negating always changes it.
pub proof fn law_negate_involutive(p: Polarity)
    ensures
        spec_negate(spec_negate(p)) == p,
        spec_negate(p) != p,
{
}

/// A type variable seen under a polarity.
#[derive(Debug, Clone, PartialEq, Copy, Hash, Eq, Structural)]
pub struct PolarVariable {
    pub polarity: Polarity,
    pub id: VarId,
}

/// A printed type generalized above `level`.
#[derive(Debug, Clone, PartialEq, Eq, Hash, Copy, Structural)]
pub struct PolymorphicType {
    pub level: usize,
    pub body: TypeId,
}

/// A printed type, with or without generalization.
#[derive(Debug, Clone, Copy)]
pub enum TypeScheme {
    Monomorphic(TypeId),
    Polymorphic(PolymorphicType),
}

/// An inferred type generalized above `level`.
#[derive(Debug, Clone, PartialEq, Eq, Hash, Copy, Structural)]
pub struct InferedPolymorphicType {
    pub level: usize,
    pub body: InferedTypeId,
}

/// An inferred type, with or without generalization.
#[derive(Debug, Clone, Copy)]
pub enum InferedTypeScheme {
    Monomorphic(InferedTypeId),
    Polymorphic(InferedPolymorphicType),
}

/// The level of a scheme whose monomorphic body is at level `mono_level`: the
/// level it was generalized at where it is polymorphic.
pub fn scheme_level(scheme: &InferedTypeScheme, mono_level: usize) -> (res: usize)
    ensures
        res == match scheme {
            InferedTypeScheme::Monomorphic(_) => mono_level,
            InferedTypeScheme::Polymorphic(p) => p.level,
        },
{
    match scheme {
        InferedTypeScheme::Monomorphic(_) => mono_level,
        InferedTypeScheme::Polymorphic(p) => p.level,
    }
}

/// A literal type. A number keeps the text it was written with.
#[derive(Debug, Clone)]
pub enum Literal {
    Bool(bool),
    Number(String),
    String(String),
    Keyword(String),
}

/// A literal type as plain values.
pub enum LiteralView {
    Bool(bool),
    Number(Seq<char>),
    String(Seq<char>),
    Keyword(Seq<char>),
}

impl View for Literal {
    type V = LiteralView;

    open spec fn view(&self) -> LiteralView {
        match self {
            Literal::Bool(b) => LiteralView::Bool(*b),
            Literal::Number(n) => LiteralView::Number(n@),
            Literal::String(s) => LiteralView::String(s@),
            Literal::Keyword(k) => LiteralView::Keyword(k@),
        }
    }
}

impl Literal {
    /// Whether two literal types are the same.
    pub fn same(&self, other: &Literal) -> (res: bool)
        ensures
            res == (self@ == other@),
    {
        match (self, other) {
            (Literal::Bool(a), Literal::Bool(b)) => *a == *b,
            (Literal::Number(a), Literal::Number(b)) => a.eq(b),
            (Literal::String(a), Literal::String(b)) => a.eq(b),
            (Literal::Keyword(a), Literal::Keyword(b)) => a.eq(b),
            _ => false,
        }
    }
}

/// The text of a literal type: a boolean or a number as it is, a string in
/// double quotes, a keyword after a colon.
pub open spec fn literal_view_text(l: LiteralView) -> Seq<char> {
    match l {
        LiteralView::Bool(b) => if b {
            "true"@
        } else {
            "false"@
        },
        LiteralView::Number(n) => n,
        LiteralView::String(s) => "\""@ + s + "\""@,
        LiteralView::Keyword(k) => ":"@ + k,
    }
}

/// The text of a literal type, as it is displayed.
pub open spec fn literal_text(l: Literal) -> Seq<char> {
    literal_view_text(l@)
}

impl Literal {
    /// The text of this literal type, as it is displayed.
    pub fn to_string(&self) -> (res: String)
        ensures
            res@ == literal_text(*self),
    {
        match self {
            Literal::Bool(b) => if *b {
                String::from_str("true")
            } else {
                String::from_str("false")
            },
            Literal::Number(n) => n.clone(),
            Literal::String(s) => {
                let mut out = String::from_str("\"");
                out.append(s.as_str());
                out.append("\"");
                out
            },
            Literal::Keyword(k) => {
                let mut out = String::from_str(":");
                out.append(k.as_str());
                out
            },
        }
    }
}

/// An inferred type. A module lists its members with their names, in the order
/// of the names.
pub enum InferedType {
    Error { span: Span },
    Variable { id: VarId, span: Span },
    Primitive { name: String, span: Span },
    Literal { value: Literal, span: Span },
    Function { lhs: InferedTypeId, rhs: InferedTypeId, span: Span },
    /// A type that arguments can be applied to: a function, a record (field
    /// selection) or a tuple.
    Applicative { arg: InferedTypeId, ret: InferedTypeId, first_arg: Option<InferedTypeId>, span: Span },
    Tuple { items: Vec<InferedTypeId>, span: Span },
    Record { fields: Vec<(String, InferedTypeId)>, proto: Option<InferedTypeId>, span: Span },
    List { item: InferedTypeId, span: Span },
    Ref { write: Option<InferedTypeId>, read: Option<InferedTypeId>, span: Span },
    Module { members: Vec<(String, InferedTypeScheme)>, span: Span },
}

/// The element of an optional id, as a sequence of at most one.
pub open spec fn opt_ids(o: Option<InferedTypeId>) -> Seq<InferedTypeId> {
    match o {
        Some(i) => seq![i],
        None => Seq::empty(),
    }
}

/// The monomorphic bodies among module members, in order.
pub open spec fn member_ids(members: Seq<(String, InferedTypeScheme)>) -> Seq<InferedTypeId>
    decreases members.len(),
{
    if members.len() == 0 {
        Seq::empty()
    } else {
        member_ids(members.drop_last()) + match members.last().1 {
            InferedTypeScheme::Monomorphic(d) => seq![d],
            InferedTypeScheme::Polymorphic(_) => Seq::empty(),
        }
    }
}

/// The types an inferred type is made of, in order: the two sides of a
/// function, the argument and result of an applicative type, the items of a
/// tuple, the fields and then the prototype of a record, the item of a list,
/// the write and then the read side of a reference, and the monomorphic members
/// of a module. The first argument of an applicative type is not among them.
pub open spec fn type_ids(t: InferedType) -> Seq<InferedTypeId> {
    match t {
        InferedType::Function { lhs, rhs, .. } => seq![lhs, rhs],
        InferedType::Applicative { arg, ret, .. } => seq![arg, ret],
        InferedType::Tuple { items, .. } => items@,
        InferedType::Record { fields, proto, .. } => fields@.map_values(|f: (String, InferedTypeId)| f.1) + opt_ids(
            proto,
        ),
        InferedType::List { item, .. } => seq![item],
        InferedType::Ref { write, read, .. } => opt_ids(write) + opt_ids(read),
        InferedType::Module { members, .. } => member_ids(members@),
        _ => Seq::empty(),
    }
}

/// What kind of type an inferred type is, as it is displayed.
pub open spec fn type_text(t: InferedType) -> Seq<char> {
    match t {
        InferedType::Error { .. } => "error"@,
        InferedType::Variable { .. } => "variable"@,
        InferedType::Primitive { name, .. } => name@,
        InferedType::Literal { value, .. } => literal_text(value),
        InferedType::Function { .. } => "function"@,
        InferedType::Record { .. } => "record"@,
        InferedType::Tuple { .. } => "tuple"@,
        InferedType::Applicative { .. } => "applicative"@,
        InferedType::List { .. } => "list"@,
        InferedType::Ref { .. } => "ref"@,
        InferedType::Module { .. } => "module"@,
    }
}

impl InferedType {
    /// Where the type was written.
    pub fn span(&self) -> (res: Span)
        ensures
            res == match *self {
                InferedType::Error { span } => span,
                InferedType::Variable { span, .. } => span,
                InferedType::Primitive { span, .. } => span,
                InferedType::Literal { span, .. } => span,
                InferedType::Function { span, .. } => span,
                InferedType::Record { span, .. } => span,
                InferedType::Tuple { span, .. } => span,
                InferedType::Applicative { span, .. } => span,
                InferedType::List { span, .. } => span,
                InferedType::Ref { span, .. } => span,
                InferedType::Module { span, .. } => span,
            },
    {
        match self {
            InferedType::Error { span } => *span,
            InferedType::Variable { span, .. } => *span,
            InferedType::Primitive { span, .. } => *span,
            InferedType::Literal { span, .. } => *span,
            InferedType::Function { span, .. } => *span,
            InferedType::Record { span, .. } => *span,
            InferedType::Tuple { span, .. } => *span,
            InferedType::Applicative { span, .. } => *span,
            InferedType::List { span, .. } => *span,
            InferedType::Ref { span, .. } => *span,
            InferedType::Module { span, .. } => *span,
        }
    }

    /// The name of a keyword literal type.
    pub fn as_keyword_literal(&self) -> (res: Option<&str>)
        ensures
            match *self {
                InferedType::Literal { value: Literal::Keyword(k), .. } => res matches Some(r) && r@ == k@,
                _ => res is None,
            },
    {
        match self {
            InferedType::Literal { value: Literal::Keyword(name), .. } => Some(name.as_str()),
            _ => None,
        }
    }

    /// The types this type is made of, in order.
    pub fn ids(&self) -> (res: Vec<InferedTypeId>)
        ensures
            res@ == type_ids(*self),
    {
        let mut ids: Vec<InferedTypeId> = Vec::new();
        match self {
            InferedType::Function { lhs, rhs, .. } => {
                ids.push(*lhs);
                ids.push(*rhs);
                assert(ids@ =~= seq![*lhs, *rhs]);
            },
            InferedType::Applicative { arg, ret, .. } => {
                ids.push(*arg);
                ids.push(*ret);
                assert(ids@ =~= seq![*arg, *ret]);
            },
            InferedType::Tuple { items, .. } => {
                let n = items.len();
                for i in 0..n
                    invariant
                        n == items@.len(),
                        ids@ == items@.subrange(0, i as int),
                {
                    ids.push(items[i]);
                    assert(ids@ =~= items@.subrange(0, i + 1));
                }
                assert(ids@ =~= items@);
            },
            InferedType::Record { fields, proto, .. } => {
                let ghost fs = fields@.map_values(|f: (String, InferedTypeId)| f.1);
                let n = fields.len();
                for i in 0..n
                    invariant
                        n == fields@.len(),
                        fs == fields@.map_values(|f: (String, InferedTypeId)| f.1),
                        ids@ == fs.subrange(0, i as int),
                {
                    ids.push(fields[i].1);
                    assert(ids@ =~= fs.subrange(0, i + 1));
                }
                assert(ids@ =~= fs);
                if let Some(p) = proto {
                    ids.push(*p);
                }
                assert(ids@ =~= fs + opt_ids(*proto));
            },
            InferedType::List { item, .. } => {
                ids.push(*item);
                assert(ids@ =~= seq![*item]);
            },
            InferedType::Ref { write, read, .. } => {
                if let Some(w) = write {
                    ids.push(*w);
                }
                if let Some(r) = read {
                    ids.push(*r);
                }
                assert(ids@ =~= opt_ids(*write) + opt_ids(*read));
            },
            InferedType::Module { members, .. } => {
                let n = members.len();
                for i in 0..n
                    invariant
                        n == members@.len(),
                        ids@ == member_ids(members@.subrange(0, i as int)),
                {
                    assert(members@.subrange(0, i + 1).drop_last() =~= members@.subrange(0, i as int));
                    match &members[i].1 {
                        InferedTypeScheme::Monomorphic(d) => {
                            ids.push(*d);
                        },
                        InferedTypeScheme::Polymorphic(_) => {},
                    }
                    assert(ids@ =~= member_ids(members@.subrange(0, i + 1)));
                }
                assert(members@.subrange(0, n as int) =~= members@);
            },
            _ => {
                assert(ids@ =~= Seq::<InferedTypeId>::empty());
            },
        }
        ids
    }

    /// What kind of type this is, as it is displayed.
    pub fn to_string(&self) -> (res: String)
        ensures
            res@ == type_text(*self),
    {
        match self {
            InferedType::Error { .. } => String::from_str("error"),
            InferedType::Variable { .. } => String::from_str("variable"),
            InferedType::Primitive { name, .. } => name.clone(),
            InferedType::Literal { value, .. } => value.to_string(),
            InferedType::Function { .. } => String::from_str("function"),
            InferedType::Record { .. } => String::from_str("record"),
            InferedType::Tuple { .. } => String::from_str("tuple"),
            InferedType::Applicative { .. } => String::from_str("applicative"),
            InferedType::List { .. } => String::from_str("list"),
            InferedType::Ref { .. } => String::from_str("ref"),
            InferedType::Module { .. } => String::from_str("module"),
        }
    }
}

/// Texts separated by a comma and a space.
pub open spec fn join(parts: Seq<Seq<char>>) -> Seq<char>
    decreases parts.len(),
{
    if parts.len() == 0 {
        Seq::empty()
    } else if parts.len() == 1 {
        parts[0]
    } else {
        join(parts.drop_last()) + ", "@ + parts.last()
    }
}

/// How an inferred type id is shown: `InferedTypeId(3)`.
pub open spec fn id_debug(i: InferedTypeId) -> Seq<char> {
    "InferedTypeId("@ + decimal(i.0 as nat) + ")"@
}

/// How an optional id is shown: `Some(..)` or `None`.
pub open spec fn opt_id_debug(o: Option<InferedTypeId>) -> Seq<char> {
    match o {
        Some(i) => "Some("@ + id_debug(i) + ")"@,
        None => "None"@,
    }
}

/// How a literal type is shown: its kind and its value, a text in quotes with
/// the escapes of `str_debug`, a number by the text it was written with.
pub open spec fn literal_debug(l: LiteralView) -> Seq<char> {
    match l {
        LiteralView::Bool(b) => "Bool("@ + (if b {
            "true"@
        } else {
            "false"@
        }) + ")"@,
        LiteralView::Number(n) => "Number("@ + n + ")"@,
        LiteralView::String(t) => "String("@ + str_debug(t) + ")"@,
        LiteralView::Keyword(k) => "Keyword("@ + str_debug(k) + ")"@,
    }
}

/// How a record field is shown: `("name", InferedTypeId(3))`.
pub open spec fn field_debug(f: (String, InferedTypeId)) -> Seq<char> {
    "("@ + str_debug(f.0@) + ", "@ + id_debug(f.1) + ")"@
}

/// How a scheme is shown.
pub open spec fn scheme_debug(s: InferedTypeScheme) -> Seq<char> {
    match s {
        InferedTypeScheme::Monomorphic(i) => "Monomorphic("@ + id_debug(i) + ")"@,
        InferedTypeScheme::Polymorphic(p) => "Polymorphic(InferedPolymorphicType { level: "@ + decimal(p.level as nat)
            + ", body: "@ + id_debug(p.body) + " })"@,
    }
}

/// How a module member is shown: `"name": scheme`.
pub open spec fn member_debug(m: (String, InferedTypeScheme)) -> Seq<char> {
    str_debug(m.0@) + ": "@ + scheme_debug(m.1)
}

/// How an inferred type is shown in traces: its kind and its fields but the span,
/// as `Debug` shows a struct, a list in square brackets and the module members
/// in braces.
pub open spec fn infered_debug(t: InferedType) -> Seq<char> {
    match t {
        InferedType::Error { .. } => "Error"@,
        InferedType::Variable { id, .. } => "Variable { id: VarId("@ + decimal(id.0 as nat) + ") }"@,
        InferedType::Primitive { name, .. } => "Primitive { name: "@ + str_debug(name@) + " }"@,
        InferedType::Literal { value, .. } => "Literal { value: "@ + literal_debug(value@) + " }"@,
        InferedType::Function { lhs, rhs, .. } => "Function { lhs: "@ + id_debug(lhs) + ", rhs: "@ + id_debug(rhs)
            + " }"@,
        InferedType::Applicative { arg, ret, first_arg, .. } => "Applicative { arg: "@ + id_debug(arg) + ", ret: "@
            + id_debug(ret) + ", first_arg: "@ + opt_id_debug(first_arg) + " }"@,
        InferedType::Tuple { items, .. } => "Tuple { items: ["@ + join(items@.map_values(|i: InferedTypeId| id_debug(i)))
            + "] }"@,
        InferedType::Record { fields, proto, .. } => "Record { fields: ["@ + join(
            fields@.map_values(|f: (String, InferedTypeId)| field_debug(f)),
        ) + "], proto: "@ + opt_id_debug(proto) + " }"@,
        InferedType::List { item, .. } => "List { item: "@ + id_debug(item) + " }"@,
        InferedType::Ref { write, read, .. } => "Ref { write: "@ + opt_id_debug(write) + ", read: "@ + opt_id_debug(
            read,
        ) + " }"@,
        InferedType::Module { members, .. } => "Module { members: {"@ + join(
            members@.map_values(|m: (String, InferedTypeScheme)| member_debug(m)),
        ) + "} }"@,
    }
}

/// Joining one more text adds a separator where texts came before.
proof fn lemma_join_push(parts: Seq<Seq<char>>, i: int)
    requires
        0 <= i < parts.len(),
    ensures
        join(parts.take(i + 1)) == join(parts.take(i)) + (if i > 0 {
            ", "@
        } else {
            Seq::<char>::empty()
        }) + parts[i],
{
    assert(parts.take(i + 1).drop_last() =~= parts.take(i));
    if i == 0 {
        assert(join(parts.take(0)) =~= Seq::<char>::empty());
    }
}

fn push_id(out: &mut String, i: InferedTypeId)
    ensures
        final(out)@ == old(out)@ + id_debug(i),
{
    out.append("InferedTypeId(");
    push_decimal(out, i.0);
    out.append(")");
}

fn push_opt_id(out: &mut String, o: Option<InferedTypeId>)
    ensures
        final(out)@ == old(out)@ + opt_id_debug(o),
{
    match o {
        Some(i) => {
            out.append("Some(");
            push_id(out, i);
            out.append(")");
        },
        None => out.append("None"),
    }
}

fn push_literal(out: &mut String, l: &Literal)
    ensures
        final(out)@ == old(out)@ + literal_debug(l@),
{
    match l {
        Literal::Bool(b) => {
            out.append("Bool(");
            if *b {
                out.append("true");
            } else {
                out.append("false");
            }
            out.append(")");
        },
        Literal::Number(n) => {
            out.append("Number(");
            out.append(n.as_str());
            out.append(")");
        },
        Literal::String(t) => {
            out.append("String(");
            out.append(debug_str(t.as_str()).as_str());
            out.append(")");
        },
        Literal::Keyword(k) => {
            out.append("Keyword(");
            out.append(debug_str(k.as_str()).as_str());
            out.append(")");
        },
    }
}

fn push_scheme(out: &mut String, sc: &InferedTypeScheme)
    ensures
        final(out)@ == old(out)@ + scheme_debug(*sc),
{
    match sc {
        InferedTypeScheme::Monomorphic(i) => {
            out.append("Monomorphic(");
            push_id(out, *i);
            out.append(")");
        },
        InferedTypeScheme::Polymorphic(p) => {
            out.append("Polymorphic(InferedPolymorphicType { level: ");
            push_decimal(out, p.level);
            out.append(", body: ");
            push_id(out, p.body);
            out.append(" })");
        },
    }
}

fn push_ids(out: &mut String, items: &Vec<InferedTypeId>)
    ensures
        final(out)@ == old(out)@ + join(items@.map_values(|i: InferedTypeId| id_debug(i))),
{
    let ghost parts = items@.map_values(|i: InferedTypeId| id_debug(i));
    let n = items.len();
    proof {
        assert(parts.take(0) =~= Seq::<Seq<char>>::empty());
        assert(old(out)@ + join(parts.take(0)) =~= old(out)@);
    }
    for i in 0..n
        invariant
            n == items@.len(),
            parts == items@.map_values(|i: InferedTypeId| id_debug(i)),
            out@ == old(out)@ + join(parts.take(i as int)),
    {
        proof {
            lemma_join_push(parts, i as int);
        }
        if i > 0 {
            out.append(", ");
        }
        push_id(out, items[i]);
        assert(out@ =~= old(out)@ + join(parts.take(i + 1)));
    }
    assert(parts.take(n as int) =~= parts);
}

fn push_fields(out: &mut String, fields: &Vec<(String, InferedTypeId)>)
    ensures
        final(out)@ == old(out)@ + join(fields@.map_values(|f: (String, InferedTypeId)| field_debug(f))),
{
    let ghost parts = fields@.map_values(|f: (String, InferedTypeId)| field_debug(f));
    let n = fields.len();
    proof {
        assert(parts.take(0) =~= Seq::<Seq<char>>::empty());
        assert(old(out)@ + join(parts.take(0)) =~= old(out)@);
    }
    for i in 0..n
        invariant
            n == fields@.len(),
            parts == fields@.map_values(|f: (String, InferedTypeId)| field_debug(f)),
            out@ == old(out)@ + join(parts.take(i as int)),
    {
        proof {
            lemma_join_push(parts, i as int);
        }
        if i > 0 {
            out.append(", ");
        }
        out.append("(");
        out.append(debug_str(fields[i].0.as_str()).as_str());
        out.append(", ");
        push_id(out, fields[i].1);
        out.append(")");
        assert(out@ =~= old(out)@ + join(parts.take(i + 1)));
    }
    assert(parts.take(n as int) =~= parts);
}

fn push_members(out: &mut String, members: &Vec<(String, InferedTypeScheme)>)
    ensures
        final(out)@ == old(out)@ + join(members@.map_values(|m: (String, InferedTypeScheme)| member_debug(m))),
{
    let ghost parts = members@.map_values(|m: (String, InferedTypeScheme)| member_debug(m));
    let n = members.len();
    proof {
        assert(parts.take(0) =~= Seq::<Seq<char>>::empty());
        assert(old(out)@ + join(parts.take(0)) =~= old(out)@);
    }
    for i in 0..n
        invariant
            n == members@.len(),
            parts == members@.map_values(|m: (String, InferedTypeScheme)| member_debug(m)),
            out@ == old(out)@ + join(parts.take(i as int)),
    {
        proof {
            lemma_join_push(parts, i as int);
        }
        if i > 0 {
            out.append(", ");
        }
        out.append(debug_str(members[i].0.as_str()).as_str());
        out.append(": ");
        push_scheme(out, &members[i].1);
        assert(out@ =~= old(out)@ + join(parts.take(i + 1)));
    }
    assert(parts.take(n as int) =~= parts);
}

impl InferedType {
    /// How this type is shown in traces: its kind and its fields but the span.
    pub fn debug_text(&self) -> (res: String)
        ensures
            res@ == infered_debug(*self),
    {
        let mut out = String::new();
        match self {
            InferedType::Error { .. } => out.append("Error"),
            InferedType::Variable { id, .. } => {
                out.append("Variable { id: VarId(");
                push_decimal(&mut out, id.0);
                out.append(") }");
            },
            InferedType::Primitive { name, .. } => {
                out.append("Primitive { name: ");
                out.append(debug_str(name.as_str()).as_str());
                out.append(" }");
            },
            InferedType::Literal { value, .. } => {
                out.append("Literal { value: ");
                push_literal(&mut out, value);
                out.append(" }");
            },
            InferedType::Function { lhs, rhs, .. } => {
                out.append("Function { lhs: ");
                push_id(&mut out, *lhs);
                out.append(", rhs: ");
                push_id(&mut out, *rhs);
                out.append(" }");
            },
            InferedType::Applicative { arg, ret, first_arg, .. } => {
                out.append("Applicative { arg: ");
                push_id(&mut out, *arg);
                out.append(", ret: ");
                push_id(&mut out, *ret);
                out.append(", first_arg: ");
                push_opt_id(&mut out, *first_arg);
                out.append(" }");
            },
            InferedType::Tuple { items, .. } => {
                out.append("Tuple { items: [");
                push_ids(&mut out, items);
                out.append("] }");
            },
            InferedType::Record { fields, proto, .. } => {
                out.append("Record { fields: [");
                push_fields(&mut out, fields);
                out.append("], proto: ");
                push_opt_id(&mut out, *proto);
                out.append(" }");
            },
            InferedType::List { item, .. } => {
                out.append("List { item: ");
                push_id(&mut out, *item);
                out.append(" }");
            },
            InferedType::Ref { write, read, .. } => {
                out.append("Ref { write: ");
                push_opt_id(&mut out, *write);
                out.append(", read: ");
                push_opt_id(&mut out, *read);
                out.append(" }");
            },
            InferedType::Module { members, .. } => {
                out.append("Module { members: {");
                push_members(&mut out, members);
                out.append("} }");
            },
        }
        out
    }
}

/// The type variables handed out for the parameters of one signature, by parameter id:
/// every occurrence of a parameter gets the same variable.
pub struct TypeGen {
    vars: HashMap<usize, InferedTypeId>,
}

impl View for TypeGen {
    type V = Map<usize, InferedTypeId>;

    closed spec fn view(&self) -> Self::V {
        self.vars@
    }
}

impl TypeGen {
    /// No variable handed out yet.
    pub fn new() -> (res: Self)
        ensures
            res@ == Map::<usize, InferedTypeId>::empty(),
    {
        TypeGen { vars: HashMap::new() }
    }

    /// The variable of parameter `id`: the one handed out before, else `fresh`,
    /// which is then kept for it.
    pub fn var(&mut self, id: usize, fresh: InferedTypeId) -> (res: InferedTypeId)
        ensures
            old(self)@.contains_key(id) ==> res == old(self)@[id] && final(self)@ == old(self)@,
            !old(self)@.contains_key(id) ==> res == fresh && final(self)@ == old(self)@.insert(id, fresh),
    {
        match self.vars.get(&id) {
            Some(v) => *v,
            None => {
                self.vars.insert(id, fresh);
                fresh
            },
        }
    }
}

/// The type variables handed out for the named variables of one signature:
/// every occurrence of a name gets the same variable.
pub struct Vars {
    vars: Vec<(&'static str, InferedTypeId)>,
}

impl View for Vars {
    type V = Seq<(Seq<char>, InferedTypeId)>;

    closed spec fn view(&self) -> Self::V {
        self.vars@.map_values(|p: (&'static str, InferedTypeId)| (p.0@, p.1))
    }
}

/// The variable given to `name`.
pub open spec fn named_var(vars: Seq<(Seq<char>, InferedTypeId)>, name: Seq<char>) -> Option<InferedTypeId>
    decreases vars.len(),
{
    if vars.len() == 0 {
        None
    } else if vars.last().0 == name {
        Some(vars.last().1)
    } else {
        named_var(vars.drop_last(), name)
    }
}

impl Vars {
    /// No variable handed out yet.
    pub fn new() -> (res: Self)
        ensures
            res@ == Seq::<(Seq<char>, InferedTypeId)>::empty(),
    {
        let res = Vars { vars: Vec::new() };
        assert(res@ =~= Seq::<(Seq<char>, InferedTypeId)>::empty());
        res
    }

    /// The variable of `name`: the one handed out before, else `fresh`, which is
    /// then kept for it.
    pub fn var(&mut self, name: &'static str, fresh: InferedTypeId) -> (res: InferedTypeId)
        ensures
            named_var(old(self)@, name@) matches Some(v) ==> res == v && final(self)@ == old(self)@,
            named_var(old(self)@, name@) is None ==> res == fresh && final(self)@ == old(self)@.push(
                (name@, fresh),
            ),
    {
        let wanted = String::from_str(name);
        let mut i = self.vars.len();
        assert(self@.subrange(0, i as int) =~= self@);
        while i > 0
            invariant
                wanted@ == name@,
                i <= self@.len(),
                self@ == old(self)@,
                named_var(self@, name@) == named_var(self@.subrange(0, i as int), name@),
            decreases i,
        {
            assert(self@.subrange(0, i as int).drop_last() =~= self@.subrange(0, i - 1));
            let candidate = String::from_str(self.vars[i - 1].0);
            if candidate.eq(&wanted) {
                return self.vars[i - 1].1;
            }
            i = i - 1;
        }
        self.vars.push((name, fresh));
        assert(self@ =~= old(self)@.push((name@, fresh)));
        fresh
    }
}

/// Asking twice for the variable of the same parameter gives the same variable,
/// whatever fresh variables are offered.
pub proof fn law_type_gen_stable(
    before: Map<usize, InferedTypeId>,
    after: Map<usize, InferedTypeId>,
    id: usize,
    fresh: InferedTypeId,
    first: InferedTypeId,
)
    requires
        before.contains_key(id) ==> first == before[id] && after == before,
        !before.contains_key(id) ==> first == fresh && after == before.insert(id, fresh),
    ensures
        after.contains_key(id),
        after[id] == first,
{
}

/// Asking twice for the variable of the same name gives the same variable,
/// whatever fresh variables are offered.
pub proof fn law_vars_stable(
    before: Seq<(Seq<char>, InferedTypeId)>,
    after: Seq<(Seq<char>, InferedTypeId)>,
    name: Seq<char>,
    fresh: InferedTypeId,
    first: InferedTypeId,
)
    requires
        named_var(before, name) matches Some(v) ==> first == v && after == before,
        named_var(before, name) is None ==> first == fresh && after == before.push((name, fresh)),
    ensures
        named_var(after, name) == Some(first),
{
    if named_var(before, name) is None {
        assert(after.drop_last() =~= before);
    }
}

/// Where a pattern part stands: in a list or an object, in the rest of one, or
/// on its own.
#[derive(Copy, Clone, Debug, PartialEq, Eq, Structural)]
pub enum PartOf {
    ListRest,
    ObjectRest,
    Nothing,
    List,
    Object,
}

impl PartOf {
    /// The same place, in the rest of the list or object.
    pub fn into_rest(self) -> (res: Self)
        ensures
            res == match self {
                PartOf::List => PartOf::ListRest,
                PartOf::Object => PartOf::ObjectRest,
                s => s,
            },
    {
        match self {
            PartOf::List => PartOf::ListRest,
            PartOf::Object => PartOf::ObjectRest,
            s => s,
        }
    }
}

/// Names for the type variables of one printed type: each variable is given,
/// the first time it is met, the name of the number of variables met before it.
pub struct VarGenerator {
    counter: usize,
    map: HashMap<usize, usize>,
}

impl VarGenerator {
    /// The number given to each variable met, by the variable's index.
    pub closed spec fn numbers(&self) -> Map<usize, usize> {
        self.map@
    }

    /// How many variables were met.
    pub closed spec fn count(&self) -> nat {
        self.counter as nat
    }

    /// Every variable met has its own number, below the count.
    pub open spec fn wf(&self) -> bool {
        &&& forall|v: usize| #[trigger] self.numbers().contains_key(v) ==> self.numbers()[v] < self.count()
        &&& forall|v: usize, w: usize|
            #![trigger self.numbers()[v], self.numbers()[w]]
            self.numbers().contains_key(v) && self.numbers().contains_key(w) && v != w ==> self.numbers()[v]
                != self.numbers()[w]
    }

    /// No variable met yet.
    pub fn new() -> (res: Self)
        ensures
            res.wf(),
            res.numbers() == Map::<usize, usize>::empty(),
            res.count() == 0,
    {
        VarGenerator { counter: 0, map: HashMap::new() }
    }

    /// The name of variable `var`: that of the number it was given, or of the
    /// next number where it is met for the first time.
    pub fn new_var(&mut self, var: VarId) -> (res: String)
        requires
            old(self).wf(),
            old(self).numbers().contains_key(var.0) || old(self).count() < usize::MAX,
        ensures
            final(self).wf(),
            old(self).numbers().contains_key(var.0) ==> {
                &&& res@ == letters_name(old(self).numbers()[var.0] as nat)
                &&& final(self).numbers() == old(self).numbers()
                &&& final(self).count() == old(self).count()
            },
            !old(self).numbers().contains_key(var.0) ==> {
                &&& res@ == letters_name(old(self).count())
                &&& final(self).numbers() == old(self).numbers().insert(var.0, old(self).count() as usize)
                &&& final(self).count() == old(self).count() + 1
            },
    {
        let id = match self.map.get(&var.0) {
            Some(n) => *n,
            None => {
                let c = self.counter;
                self.map.insert(var.0, c);
                self.counter = self.counter + 1;
                proof {
                    assert forall|v: usize| #[trigger] self.numbers().contains_key(v) implies self.numbers()[v]
                        < self.count() by {
                        if v != var.0 {
                            assert(old(self).numbers().contains_key(v));
                        }
                    }
                    assert forall|v: usize, w: usize|
                        #![trigger self.numbers()[v], self.numbers()[w]]
                        self.numbers().contains_key(v) && self.numbers().contains_key(w) && v != w implies self.numbers()[v]
                            != self.numbers()[w] by {
                        if v != var.0 && w != var.0 {
                            assert(old(self).numbers()[v] == self.numbers()[v]);
                            assert(old(self).numbers()[w] == self.numbers()[w]);
                        } else if v == var.0 {
                            assert(old(self).numbers().contains_key(w));
                        } else {
                            assert(old(self).numbers().contains_key(v));
                        }
                    }
                }
                c
            },
        };
        variable_letters(id)
    }
}

/// The numbers the variables `vs` get when they are met in that order: each
/// variable met for the first time gets the count of those met before it; and
/// that count.
pub open spec fn first_seen(vs: Seq<usize>) -> (Map<usize, usize>, nat)
    decreases vs.len(),
{
    if vs.len() == 0 {
        (Map::empty(), 0)
    } else {
        let prev = first_seen(vs.drop_last());
        if prev.0.contains_key(vs.last()) {
            prev
        } else {
            (prev.0.insert(vs.last(), prev.1 as usize), prev.1 + 1)
        }
    }
}

/// A generator numbers variables in the order they are first met: a new
/// generator has met none, and where it has met the variables `seen`, meeting
/// `v` numbers as meeting `seen` then `v` does, and names `v` by its number.
pub proof fn law_new_var_first_seen(
    before: VarGenerator,
    after: VarGenerator,
    seen: Seq<usize>,
    v: usize,
    name: Seq<char>,
)
    requires
        (before.numbers(), before.count()) == first_seen(seen),
        before.count() < usize::MAX,
        before.numbers().contains_key(v) ==> after.numbers() == before.numbers() && after.count() == before.count()
            && name == letters_name(before.numbers()[v] as nat),
        !before.numbers().contains_key(v) ==> after.numbers() == before.numbers().insert(v, before.count() as usize)
            && after.count() == before.count() + 1 && name == letters_name(before.count()),
    ensures
        first_seen(Seq::empty()) == (Map::<usize, usize>::empty(), 0nat),
        (after.numbers(), after.count()) == first_seen(seen.push(v)),
        name == letters_name(first_seen(seen.push(v)).0[v] as nat),
{
    assert(seen.push(v).drop_last() =~= seen);
}

/// Different variables met by one generator get different names.
pub proof fn law_variable_names_distinct(g: VarGenerator, v: usize, w: usize)
    requires
        g.wf(),
        g.numbers().contains_key(v),
        g.numbers().contains_key(w),
        v != w,
    ensures
        letters_name(g.numbers()[v] as nat) != letters_name(g.numbers()[w] as nat),
{
    law_names_are_distinct(g.numbers()[v] as nat, g.numbers()[w] as nat);
}

} // verus!
