//! Canonical types, the form in which inferred types are printed, kept in a
//! table where each type is stored once.
use super::reachability::ID;
use crate::simple_types::{Literal, LiteralView};
use crate::source::Span;
use vstd::prelude::*;

verus! {

/// The position of a canonical type in the table that holds it.
#[derive(Debug, PartialEq, Clone, Copy, PartialOrd, Ord, Eq, Structural)]
pub struct CanonId(pub ID);

/// A canonical type.
#[derive(Debug, Clone)]
pub enum Canonical {
    /// A type that is not handled yet.
    Todo(String, Option<Span>),
    /// The type `_`.
    Wildcard(Option<Span>),
    /// Any type; with a number, the type variable of that number.
    Any(Option<usize>, Option<Span>),
    Literal(Literal, Option<Span>),
    /// A recursive type: the type variable of the number stands for the whole type.
    As(usize, CanonId, Option<Span>),
    Or(Vec<CanonId>, Option<Span>),
    And(Vec<CanonId>, Option<Span>),
    Error(Option<Span>),
    Primitive(String, Option<Span>),
    Tuple { items: Vec<CanonId>, span: Option<Span> },
    List { item: CanonId, span: Option<Span> },
    Func { pattern: CanonId, ret: CanonId, span: Option<Span> },
    Record { fields: Vec<(String, CanonId)>, proto: Option<CanonId>, span: Option<Span> },
    Reference { read: Option<CanonId>, write: Option<CanonId>, span: Option<Span> },
    Applicable { args: Vec<CanonId>, ret: CanonId, span: Option<Span> },
}

/// A canonical type as plain values.
pub enum CanonicalView {
    Todo(Seq<char>, Option<Span>),
    Wildcard(Option<Span>),
    Any(Option<usize>, Option<Span>),
    Literal(LiteralView, Option<Span>),
    As(usize, CanonId, Option<Span>),
    Or(Seq<CanonId>, Option<Span>),
    And(Seq<CanonId>, Option<Span>),
    Error(Option<Span>),
    Primitive(Seq<char>, Option<Span>),
    Tuple { items: Seq<CanonId>, span: Option<Span> },
    List { item: CanonId, span: Option<Span> },
    Func { pattern: CanonId, ret: CanonId, span: Option<Span> },
    Record { fields: Seq<(Seq<char>, CanonId)>, proto: Option<CanonId>, span: Option<Span> },
    Reference { read: Option<CanonId>, write: Option<CanonId>, span: Option<Span> },
    Applicable { args: Seq<CanonId>, ret: CanonId, span: Option<Span> },
}

/// The fields of a record as plain values.
pub open spec fn fields_view(fields: Seq<(String, CanonId)>) -> Seq<(Seq<char>, CanonId)> {
    fields.map_values(|f: (String, CanonId)| (f.0@, f.1))
}

impl View for Canonical {
    type V = CanonicalView;

    open spec fn view(&self) -> CanonicalView {
        match self {
            Canonical::Todo(t, s) => CanonicalView::Todo(t@, *s),
            Canonical::Wildcard(s) => CanonicalView::Wildcard(*s),
            Canonical::Any(i, s) => CanonicalView::Any(*i, *s),
            Canonical::Literal(l, s) => CanonicalView::Literal(l@, *s),
            Canonical::As(i, c, s) => CanonicalView::As(*i, *c, *s),
            Canonical::Or(ids, s) => CanonicalView::Or(ids@, *s),
            Canonical::And(ids, s) => CanonicalView::And(ids@, *s),
            Canonical::Error(s) => CanonicalView::Error(*s),
            Canonical::Primitive(n, s) => CanonicalView::Primitive(n@, *s),
            Canonical::Tuple { items, span } => CanonicalView::Tuple { items: items@, span: *span },
            Canonical::List { item, span } => CanonicalView::List { item: *item, span: *span },
            Canonical::Func { pattern, ret, span } => CanonicalView::Func { pattern: *pattern, ret: *ret, span: *span },
            Canonical::Record { fields, proto, span } => CanonicalView::Record {
                fields: fields_view(fields@),
                proto: *proto,
                span: *span,
            },
            Canonical::Reference { read, write, span } => CanonicalView::Reference {
                read: *read,
                write: *write,
                span: *span,
            },
            Canonical::Applicable { args, ret, span } => CanonicalView::Applicable { args: args@, ret: *ret, span: *span },
        }
    }
}

/// Whether two lists of ids are the same.
fn same_ids(a: &Vec<CanonId>, b: &Vec<CanonId>) -> (res: bool)
    ensures
        res == (a@ == b@),
{
    if a.len() != b.len() {
        return false;
    }
    let n = a.len();
    for i in 0..n
        invariant
            n == a@.len(),
            n == b@.len(),
            forall|j: int| 0 <= j < i ==> a@[j] == b@[j],
    {
        if a[i] != b[i] {
            return false;
        }
    }
    assert(a@ =~= b@);
    true
}

/// Whether two lists of record fields are the same.
fn same_fields(a: &Vec<(String, CanonId)>, b: &Vec<(String, CanonId)>) -> (res: bool)
    ensures
        res == (fields_view(a@) == fields_view(b@)),
{
    if a.len() != b.len() {
        assert(fields_view(a@).len() != fields_view(b@).len());
        return false;
    }
    let n = a.len();
    for i in 0..n
        invariant
            n == a@.len(),
            n == b@.len(),
            forall|j: int| 0 <= j < i ==> fields_view(a@)[j] == fields_view(b@)[j],
    {
        if !a[i].0.eq(&b[i].0) || a[i].1 != b[i].1 {
            assert(fields_view(a@)[i as int] != fields_view(b@)[i as int]);
            return false;
        }
    }
    assert(fields_view(a@) =~= fields_view(b@));
    true
}

/// Whether two optional spans are the same.
fn same_span(a: &Option<Span>, b: &Option<Span>) -> (res: bool)
    ensures
        res == (*a == *b),
{
    match (a, b) {
        (Some(x), Some(y)) => *x == *y,
        (None, None) => true,
        _ => false,
    }
}

/// Whether two optional ids are the same.
fn same_opt(a: &Option<CanonId>, b: &Option<CanonId>) -> (res: bool)
    ensures
        res == (*a == *b),
{
    match (a, b) {
        (Some(x), Some(y)) => *x == *y,
        (None, None) => true,
        _ => false,
    }
}

impl Canonical {
    /// Where the type was written, if it was.
    pub fn span(&self) -> (res: Option<Span>)
        ensures
            res == match self@ {
                CanonicalView::Todo(_, s) => s,
                CanonicalView::Wildcard(s) => s,
                CanonicalView::Any(_, s) => s,
                CanonicalView::Literal(_, s) => s,
                CanonicalView::As(_, _, s) => s,
                CanonicalView::Or(_, s) => s,
                CanonicalView::And(_, s) => s,
                CanonicalView::Error(s) => s,
                CanonicalView::Primitive(_, s) => s,
                CanonicalView::Tuple { span, .. } => span,
                CanonicalView::List { span, .. } => span,
                CanonicalView::Func { span, .. } => span,
                CanonicalView::Record { span, .. } => span,
                CanonicalView::Reference { span, .. } => span,
                CanonicalView::Applicable { span, .. } => span,
            },
    {
        match self {
            Canonical::Todo(_, span)
            | Canonical::Wildcard(span)
            | Canonical::Any(_, span)
            | Canonical::Literal(_, span)
            | Canonical::As(_, _, span)
            | Canonical::Or(_, span)
            | Canonical::And(_, span)
            | Canonical::Error(span)
            | Canonical::Primitive(_, span)
            | Canonical::Tuple { span, .. }
            | Canonical::List { span, .. }
            | Canonical::Func { span, .. }
            | Canonical::Record { span, .. }
            | Canonical::Reference { span, .. }
            | Canonical::Applicable { span, .. } => *span,
        }
    }

    /// Whether two canonical types are the same, spans included.
    pub fn same(&self, other: &Canonical) -> (res: bool)
        ensures
            res == (self@ == other@),
    {
        match (self, other) {
            (Canonical::Todo(a, s), Canonical::Todo(b, t)) => a.eq(b) && same_span(s, t),
            (Canonical::Wildcard(s), Canonical::Wildcard(t)) => same_span(s, t),
            (Canonical::Any(a, s), Canonical::Any(b, t)) => {
                let same_var = match (a, b) {
                    (Some(x), Some(y)) => *x == *y,
                    (None, None) => true,
                    _ => false,
                };
                same_var && same_span(s, t)
            },
            (Canonical::Literal(a, s), Canonical::Literal(b, t)) => a.same(b) && same_span(s, t),
            (Canonical::As(i, a, s), Canonical::As(j, b, t)) => *i == *j && *a == *b && same_span(s, t),
            (Canonical::Or(a, s), Canonical::Or(b, t)) => same_ids(a, b) && same_span(s, t),
            (Canonical::And(a, s), Canonical::And(b, t)) => same_ids(a, b) && same_span(s, t),
            (Canonical::Error(s), Canonical::Error(t)) => same_span(s, t),
            (Canonical::Primitive(a, s), Canonical::Primitive(b, t)) => a.eq(b) && same_span(s, t),
            (Canonical::Tuple { items: a, span: s }, Canonical::Tuple { items: b, span: t }) => same_ids(a, b)
                && same_span(s, t),
            (Canonical::List { item: a, span: s }, Canonical::List { item: b, span: t }) => *a == *b && same_span(s, t),
            (
                Canonical::Func { pattern: p, ret: r, span: s },
                Canonical::Func { pattern: q, ret: u, span: t },
            ) => *p == *q && *r == *u && same_span(s, t),
            (
                Canonical::Record { fields: a, proto: p, span: s },
                Canonical::Record { fields: b, proto: q, span: t },
            ) => same_fields(a, b) && same_opt(p, q) && same_span(s, t),
            (
                Canonical::Reference { read: r1, write: w1, span: s },
                Canonical::Reference { read: r2, write: w2, span: t },
            ) => same_opt(r1, r2) && same_opt(w1, w2) && same_span(s, t),
            (
                Canonical::Applicable { args: a, ret: r, span: s },
                Canonical::Applicable { args: b, ret: u, span: t },
            ) => same_ids(a, b) && *r == *u && same_span(s, t),
            _ => false,
        }
    }
}

/// A table of canonical types being filled; each type is stored once.
#[derive(Debug, Clone)]
pub struct CanonicalBuilder {
    canonical: Vec<Canonical>,
}

/// The position of the first entry of `table` that is `c`.
pub open spec fn first_index(table: Seq<CanonicalView>, c: CanonicalView) -> Option<int>
    decreases table.len(),
{
    if table.len() == 0 {
        None
    } else {
        match first_index(table.drop_last(), c) {
            Some(i) => Some(i),
            None => if table.last() == c {
                Some(table.len() - 1)
            } else {
                None
            },
        }
    }
}

impl CanonicalBuilder {
    /// The types stored, in order.
    pub closed spec fn table(&self) -> Seq<CanonicalView> {
        self.canonical@.map_values(|c: Canonical| c@)
    }

    /// No type yet.
    pub fn new() -> (res: Self)
        ensures
            res.table() == Seq::<CanonicalView>::empty(),
    {
        let res = CanonicalBuilder { canonical: Vec::new() };
        assert(res.table() =~= Seq::<CanonicalView>::empty());
        res
    }

    /// The id of `canon`: that of the entry already stored for it, or of a new
    /// entry at the end.
    pub fn add(&mut self, canon: Canonical) -> (res: CanonId)
        ensures
            match first_index(old(self).table(), canon@) {
                Some(i) => res.0 == i && final(self).table() == old(self).table(),
                None => res.0 == old(self).table().len() && final(self).table() == old(self).table().push(canon@),
            },
    {
        let n = self.canonical.len();
        let mut i: usize = 0;
        while i < n
            invariant
                i <= n,
                n == self.table().len(),
                self.table() == old(self).table(),
                first_index(self.table().subrange(0, i as int), canon@) is None,
            decreases n - i,
        {
            proof {
                assert(self.table().subrange(0, i + 1).drop_last() =~= self.table().subrange(0, i as int));
                assert(self.table()[i as int] == self.canonical@[i as int]@);
            }
            if self.canonical[i].same(&canon) {
                proof {
                    lemma_first_index_prefix(self.table(), canon@, i as int);
                }
                return CanonId(i);
            }
            i = i + 1;
        }
        assert(self.table().subrange(0, n as int) =~= self.table());
        let ghost c = canon@;
        self.canonical.push(canon);
        assert(self.table() =~= old(self).table().push(c));
        CanonId(n)
    }

    /// The type stored at `id`.
    pub fn get(&self, id: CanonId) -> (res: &Canonical)
        requires
            id.0 < self.table().len(),
        ensures
            res@ == self.table()[id.0 as int],
    {
        &self.canonical[id.0]
    }

    /// The finished table.
    pub fn finish(self) -> (res: Canonicalized)
        ensures
            res.table() == self.table(),
    {
        Canonicalized { canonical: self.canonical }
    }
}

/// An entry equal to `c` at `i`, after none in the prefix, is the first one.
proof fn lemma_first_index_prefix(table: Seq<CanonicalView>, c: CanonicalView, i: int)
    requires
        0 <= i < table.len(),
        table[i] == c,
        first_index(table.subrange(0, i), c) is None,
    ensures
        first_index(table, c) == Some(i),
    decreases table.len(),
{
    if table.len() == i + 1 {
        assert(table.drop_last() =~= table.subrange(0, i));
    } else {
        assert(table.drop_last().subrange(0, i) =~= table.subrange(0, i));
        lemma_first_index_prefix(table.drop_last(), c, i);
    }
}

/// A finished table of canonical types.
pub struct Canonicalized {
    canonical: Vec<Canonical>,
}

impl Canonicalized {
    /// The types stored, in order.
    pub closed spec fn table(&self) -> Seq<CanonicalView> {
        self.canonical@.map_values(|c: Canonical| c@)
    }

    /// The type stored at `id`.
    pub fn get(&self, id: CanonId) -> (res: &Canonical)
        requires
            id.0 < self.table().len(),
        ensures
            res@ == self.table()[id.0 as int],
    {
        &self.canonical[id.0]
    }
}

} // verus!
