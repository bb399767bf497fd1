//! Descriptions of S-expressions that are added to an arena on demand: symbols
//! and keywords, strings, lists, quoting, and S-expressions the arena already holds.
use crate::ast::{
    emitted_nodes, extends_by, lemma_extends_trans, lemma_one, record_ts, trim_colons, trim_leading_colons, AST, ASTS,
    Emitted, SExp, SExpId, SExpView,
};
use crate::source::{Span, Spanned};
use vstd::prelude::*;

verus! {

/// An S-expression to be added to an arena.
pub enum Builder {
    /// A name: a keyword, without its leading colons, where it starts with a
    /// colon, and a symbol otherwise.
    Symbol(String),
    /// A string.
    Str(String),
    /// The error S-expression.
    Error,
    /// A list of the S-expressions of the items, in order.
    List(Vec<Builder>),
    /// An S-expression the arena already holds.
    Id(SExpId),
    /// An S-expression the arena already holds, with the span it keeps.
    Spanned(Spanned<SExpId>),
}

/// The S-expression a name stands for.
pub open spec fn symbol_view(name: Seq<char>) -> SExpView {
    if name.len() > 0 && name[0] == ':' {
        SExpView::Keyword(trim_colons(name))
    } else {
        SExpView::Symbol(name)
    }
}

/// Whether `b` names an S-expression the arena already holds.
pub open spec fn is_existing(b: Builder) -> bool {
    b is Id || b is Spanned
}

/// For a description that is not of an existing S-expression: the S-expressions
/// added for its items (the first at index `base` of the arena of generation
/// `gen`, each with span `caller`) and the S-expression it stands for.
pub open spec fn parts(b: Builder, caller: Span, gen: nat, base: nat) -> (Seq<Emitted>, SExpView)
    decreases b, 2nat,
{
    match b {
        Builder::Symbol(s) => (Seq::empty(), symbol_view(s@)),
        Builder::Str(s) => (Seq::empty(), SExpView::String(s@)),
        Builder::Error => (Seq::empty(), SExpView::Error),
        Builder::List(items) => {
            let r = assembled_items(items@, caller, gen, base);
            (r.0, SExpView::List(r.1))
        },
        Builder::Id(id) => (Seq::empty(), SExpView::Error),
        Builder::Spanned(s) => (Seq::empty(), SExpView::Error),
    }
}

/// The S-expressions added for `b`, the first at index `base` of the arena of
/// generation `gen`, each with span `caller`, and the id `b` ends up with.
pub open spec fn assembled(b: Builder, caller: Span, gen: nat, base: nat) -> (Seq<Emitted>, SExpId)
    decreases b, 3nat,
{
    match b {
        Builder::Id(id) => (Seq::empty(), id),
        Builder::Spanned(s) => (Seq::empty(), s.item),
        _ => {
            let p = parts(b, caller, gen, base);
            (p.0.push((p.1, caller, None)), SExpId::make(base + p.0.len(), gen))
        },
    }
}

/// The S-expressions added for the items `bs`, in order, and their ids.
pub open spec fn assembled_items(bs: Seq<Builder>, caller: Span, gen: nat, base: nat) -> (Seq<Emitted>, Seq<SExpId>)
    decreases bs, 1nat,
{
    if bs.len() == 0 {
        (Seq::empty(), Seq::empty())
    } else {
        let r = assembled_items(bs.drop_last(), caller, gen, base);
        let m = assembled(bs.last(), caller, gen, base + r.0.len());
        (r.0 + m.0, r.1.push(m.1))
    }
}

/// `symbol(name)`: the name `name`.
pub fn symbol(name: &str) -> (res: Builder)
    ensures
        res matches Builder::Symbol(s) && s@ == name@,
{
    Builder::Symbol(String::from_str(name))
}

/// The string `s`.
pub fn string(s: &str) -> (res: Builder)
    ensures
        res matches Builder::Str(t) && t@ == s@,
{
    Builder::Str(String::from_str(s))
}

/// The list of the symbol `name` followed by the items `tail`.
pub fn rest(name: &str, tail: Vec<Builder>) -> (res: Builder)
    ensures
        res matches Builder::List(items) && items@.len() == tail@.len() + 1 && (items@[0] matches Builder::Symbol(s)
            && s@ == name@) && items@.subrange(1, items@.len() as int) == tail@,
{
    let mut items = tail;
    items.insert(0, symbol(name));
    proof {
        assert(items@.subrange(1, items@.len() as int) =~= tail@);
    }
    Builder::List(items)
}

/// The error S-expression.
pub fn error() -> (res: Builder)
    ensures
        res is Error,
{
    Builder::Error
}

/// `(quote exp)`.
pub fn quote(exp: Builder) -> (res: Builder)
    ensures
        res matches Builder::List(items) && items@.len() == 2 && (items@[0] matches Builder::Symbol(q) && q@
            == "quote"@) && items@[1] == exp,
{
    proof {
        reveal_strlit("quote");
    }
    let mut items: Vec<Builder> = Vec::new();
    items.push(symbol("quote"));
    items.push(exp);
    Builder::List(items)
}

/// The empty list.
pub fn list() -> (res: Builder)
    ensures
        res matches Builder::List(items) && items@.len() == 0,
{
    Builder::List(Vec::new())
}

/// Adding nothing leaves an arena as it is.
proof fn lemma_extends_empty(a: AST)
    ensures
        extends_by(a, a, Seq::<Emitted>::empty()),
{
    assert(emitted_nodes(Seq::<Emitted>::empty()) =~= Seq::<(SExpView, Span)>::empty());
    assert(a.node_views() + emitted_nodes(Seq::<Emitted>::empty()) =~= a.node_views());
}

/// The S-expression of the name `name`.
fn symbol_sexp(name: &str) -> (res: SExp)
    ensures
        res@ == symbol_view(name@),
{
    if name.unicode_len() > 0 && name.get_char(0) == ':' {
        SExp::Keyword(trim_leading_colons(name))
    } else {
        SExp::Symbol(String::from_str(name))
    }
}

impl Builder {
    /// The S-expression this description stands for; the S-expressions of its
    /// items are added to `ast` first, each with span `caller`.
    fn sexp_of(&self, ast: &mut AST, caller: Span) -> (res: SExp)
        requires
            !is_existing(*self),
        ensures
            extends_by(*old(ast), *final(ast), parts(*self, caller, old(ast).gen(), old(ast).node_views().len()).0),
            res@ == parts(*self, caller, old(ast).gen(), old(ast).node_views().len()).1,
        decreases *self, 2nat,
    {
        proof {
            lemma_extends_empty(*ast);
        }
        match self {
            Builder::Symbol(s) => symbol_sexp(s.as_str()),
            Builder::Str(s) => SExp::String(s.clone()),
            Builder::Error => SExp::Error,
            Builder::List(items) => {
                let ghost gen = ast.gen();
                let ghost base = ast.node_views().len();
                let n = items.len();
                let mut ids: Vec<SExpId> = Vec::new();
                let mut i: usize = 0;
                proof {
                    assert(items@.take(0) =~= Seq::<Builder>::empty());
                }
                while i < n
                    invariant
                        i <= n,
                        n == items@.len(),
                        *self == Builder::List(*items),
                        gen == old(ast).gen(),
                        base == old(ast).node_views().len(),
                        extends_by(*old(ast), *ast, assembled_items(items@.take(i as int), caller, gen, base).0),
                        ids@ == assembled_items(items@.take(i as int), caller, gen, base).1,
                    decreases n - i,
                {
                    let ghost r = assembled_items(items@.take(i as int), caller, gen, base);
                    let ghost mid = *ast;
                    proof {
                        assert(items@.take(i + 1).drop_last() =~= items@.take(i as int));
                        assert(items@.take(i + 1).last() == items@[i as int]);
                        assert(emitted_nodes(r.0).len() == r.0.len());
                        assert(decreases_to!(*self => (*self)->List_0));
                        assert(decreases_to!(*items => items@));
                        assert(decreases_to!(items@ => items@[i as int]));
                        assert(decreases_to!(*self => items@[i as int]));
                    }
                    let id = items[i].assemble_ref(ast, caller);
                    ids.push(id);
                    proof {
                        lemma_extends_trans(*old(ast), mid, *ast, r.0, assembled(items@[i as int], caller, gen, base + r.0.len()).0);
                    }
                    i = i + 1;
                }
                proof {
                    assert(items@.take(n as int) =~= items@);
                }
                SExp::List(ids)
            },
            _ => {
                proof {
                    assert(false);
                }
                SExp::Error
            },
        }
    }

    /// Adds the S-expressions of this description to `ast`, each with span
    /// `caller`, and gives the id of the one it stands for.
    fn assemble_ref(&self, ast: &mut AST, caller: Span) -> (res: SExpId)
        ensures
            extends_by(*old(ast), *final(ast), assembled(*self, caller, old(ast).gen(), old(ast).node_views().len()).0),
            res == assembled(*self, caller, old(ast).gen(), old(ast).node_views().len()).1,
        decreases *self, 3nat,
    {
        match self {
            Builder::Id(id) => {
                proof {
                    lemma_extends_empty(*ast);
                }
                *id
            },
            Builder::Spanned(s) => {
                proof {
                    lemma_extends_empty(*ast);
                }
                s.item
            },
            _ => {
                let ghost p = parts(*self, caller, ast.gen(), ast.node_views().len());
                let sexp = self.sexp_of(ast, caller);
                let ghost mid = *ast;
                proof {
                    assert(emitted_nodes(p.0).len() == p.0.len());
                }
                let id = ast.add_node(sexp, caller, None);
                proof {
                    lemma_one(mid, *ast, (p.1, caller, None));
                    lemma_extends_trans(*old(ast), mid, *ast, p.0, seq![(p.1, caller, None)]);
                    assert(p.0 + seq![(p.1, caller, None)] =~= p.0.push((p.1, caller, None)));
                }
                id
            },
        }
    }

    /// The S-expression this description stands for, not added itself; the
    /// S-expressions of its items are added to `ast`, each with span `caller`.
    pub fn assemble(self, ast: &mut AST, caller: Span) -> (res: SExp)
        requires
            !is_existing(self),
        ensures
            extends_by(*old(ast), *final(ast), parts(self, caller, old(ast).gen(), old(ast).node_views().len()).0),
            res@ == parts(self, caller, old(ast).gen(), old(ast).node_views().len()).1,
    {
        self.sexp_of(ast, caller)
    }

    /// `assemble`, with the span `caller`.
    pub fn assemble_with_span(self, ast: &mut AST, caller: Span) -> (res: Spanned<SExp>)
        requires
            !is_existing(self),
        ensures
            extends_by(*old(ast), *final(ast), parts(self, caller, old(ast).gen(), old(ast).node_views().len()).0),
            res.item@ == parts(self, caller, old(ast).gen(), old(ast).node_views().len()).1,
            res.span == caller,
    {
        let sexp = self.sexp_of(ast, caller);
        Spanned::new(sexp, caller)
    }

    /// Adds the S-expressions of this description to `ast`, each with span
    /// `caller`, and gives the id of the one it stands for: the last added, or
    /// the existing one it names.
    pub fn assemble_id(self, ast: &mut AST, caller: Span) -> (res: SExpId)
        ensures
            extends_by(*old(ast), *final(ast), assembled(self, caller, old(ast).gen(), old(ast).node_views().len()).0),
            res == assembled(self, caller, old(ast).gen(), old(ast).node_views().len()).1,
    {
        self.assemble_ref(ast, caller)
    }

    /// `assemble_id`, with the span `caller`, or the span an existing
    /// S-expression keeps.
    pub fn assemble_id_with_span(self, ast: &mut AST, caller: Span) -> (res: Spanned<SExpId>)
        requires
            !(self is Id),
        ensures
            extends_by(*old(ast), *final(ast), assembled(self, caller, old(ast).gen(), old(ast).node_views().len()).0),
            res.item == assembled(self, caller, old(ast).gen(), old(ast).node_views().len()).1,
            res.span == (match self {
                Builder::Spanned(s) => s.span,
                _ => caller,
            }),
    {
        match self {
            Builder::Spanned(s) => {
                proof {
                    lemma_extends_empty(*ast);
                }
                s
            },
            b => {
                let id = b.assemble_ref(ast, caller);
                Spanned::new(id, caller)
            },
        }
    }

    /// Builds this description in a fresh arena of `asts`, whose root it becomes,
    /// and keeps that arena.
    pub fn build_ast(self, asts: &mut ASTS, caller: Span) -> (res: Spanned<SExpId>)
        requires
            !(self is Id),
            old(asts).generation_spec() < usize::MAX,
        ensures
            ({
                let g = old(asts).generation_spec();
                let ns = assembled(self, caller, g, 0).0;
                let a = final(asts).arenas()[g];
                &&& final(asts).generation_spec() == g + 1
                &&& final(asts).by_source() == old(asts).by_source()
                &&& final(asts).arenas() == old(asts).arenas().insert(g, a)
                &&& a.gen() == g
                &&& a.node_views() == emitted_nodes(ns)
                &&& a.ts_map() == record_ts(Map::empty(), ns, 0, g)
                &&& a.root_spec() == Some(res.item)
                &&& res.item == assembled(self, caller, g, 0).1
                &&& res.span == (match self {
                    Builder::Spanned(s) => s.span,
                    _ => caller,
                })
            }),
            old(asts).wf() ==> final(asts).wf(),
    {
        let mut ast = asts.new_ast();
        let ghost fresh = ast;
        let root = self.assemble_id_with_span(&mut ast, caller);
        ast.set_root(root.item);
        let ghost a = ast;
        proof {
            assert(Seq::<(SExpView, Span)>::empty() + emitted_nodes(assembled(self, caller, fresh.gen(), 0).0)
                =~= emitted_nodes(assembled(self, caller, fresh.gen(), 0).0));
        }
        asts.add_ast(ast);
        proof {
            assert(final(asts).arenas()[a.gen()] == a);
        }
        root
    }
}

} // verus!
