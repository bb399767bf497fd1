//! Syntax trees: the concrete tree a parser reports, and the S-expressions
//! built from it in arenas, one arena per parsed source.
use crate::source::{Range, SourceId, Span, Spanned};
use std::collections::HashMap;
use vstd::prelude::*;

verus! {

broadcast use vstd::std_specs::hash::group_hash_axioms;

/// The id of an S-expression: its index in its arena and the arena's generation.
#[derive(Clone, Copy, Debug, PartialEq, Eq, PartialOrd, Ord, Hash, Structural)]
pub struct SExpId {
    id: usize,
    generation: usize,
}

impl SExpId {
    /// The index in the arena.
    pub closed spec fn index(self) -> nat {
        self.id as nat
    }

    /// The generation of the arena.
    pub closed spec fn gen(self) -> nat {
        self.generation as nat
    }

    /// The id of entry `index` of the arena of generation `gen`.
    pub closed spec fn make(index: nat, gen: nat) -> SExpId {
        SExpId { id: index as usize, generation: gen as usize }
    }

    /// An id is determined by its index and generation, within the machine's range.
    pub proof fn lemma_make(index: nat, gen: nat)
        requires
            index <= usize::MAX,
            gen <= usize::MAX,
        ensures
            Self::make(index, gen).index() == index,
            Self::make(index, gen).gen() == gen,
    {
    }

    /// The generation of the arena this id belongs to.
    pub fn generation(self) -> (res: usize)
        ensures
            res == self.gen(),
    {
        self.generation
    }
}

/// An S-expression. A number keeps the text it was written with.
#[derive(Debug, Clone)]
pub enum SExp {
    Number(String),
    String(String),
    Bool(bool),
    Symbol(String),
    /// Symbol that starts with :
    Keyword(String),
    List(Vec<SExpId>),
    Error,
}

/// An S-expression as plain values.
pub enum SExpView {
    Number(Seq<char>),
    String(Seq<char>),
    Bool(bool),
    Symbol(Seq<char>),
    Keyword(Seq<char>),
    List(Seq<SExpId>),
    Error,
}

impl View for SExp {
    type V = SExpView;

    open spec fn view(&self) -> SExpView {
        match self {
            SExp::Number(s) => SExpView::Number(s@),
            SExp::String(s) => SExpView::String(s@),
            SExp::Bool(b) => SExpView::Bool(*b),
            SExp::Symbol(s) => SExpView::Symbol(s@),
            SExp::Keyword(s) => SExpView::Keyword(s@),
            SExp::List(l) => SExpView::List(l@),
            SExp::Error => SExpView::Error,
        }
    }
}

impl SExp {
    /// The name of a keyword.
    pub fn as_keyword(&self) -> (res: Option<&str>)
        ensures
            match self@ {
                SExpView::Keyword(s) => res matches Some(r) && r@ == s,
                _ => res is None,
            },
    {
        match self {
            SExp::Keyword(s) => Some(s.as_str()),
            _ => None,
        }
    }

    /// The name of a symbol.
    pub fn as_symbol(&self) -> (res: Option<&str>)
        ensures
            match self@ {
                SExpView::Symbol(s) => res matches Some(r) && r@ == s,
                _ => res is None,
            },
    {
        match self {
            SExp::Symbol(s) => Some(s.as_str()),
            _ => None,
        }
    }

    /// The name of a symbol or a keyword.
    pub fn as_symbol_or_keyword(&self) -> (res: Option<&str>)
        ensures
            match self@ {
                SExpView::Symbol(s) => res matches Some(r) && r@ == s,
                SExpView::Keyword(s) => res matches Some(r) && r@ == s,
                _ => res is None,
            },
    {
        match self {
            SExp::Symbol(s) => Some(s.as_str()),
            SExp::Keyword(s) => Some(s.as_str()),
            _ => None,
        }
    }

    /// The name of a symbol or a keyword, or the content of a string.
    pub fn as_symbol_or_keyword_or_string(&self) -> (res: Option<&str>)
        ensures
            match self@ {
                SExpView::Symbol(s) => res matches Some(r) && r@ == s,
                SExpView::Keyword(s) => res matches Some(r) && r@ == s,
                SExpView::String(s) => res matches Some(r) && r@ == s,
                _ => res is None,
            },
    {
        match self {
            SExp::Symbol(s) => Some(s.as_str()),
            SExp::Keyword(s) => Some(s.as_str()),
            SExp::String(s) => Some(s.as_str()),
            _ => None,
        }
    }

    /// The items of a list.
    pub fn as_list(&self) -> (res: Option<&[SExpId]>)
        ensures
            match self@ {
                SExpView::List(l) => res matches Some(r) && r@ == l,
                _ => res is None,
            },
    {
        match self {
            SExp::List(l) => Some(l.as_slice()),
            _ => None,
        }
    }
}

/// A node of the concrete syntax tree, as the parser reported it: its id, its
/// kind, its range, its text (or why the text could not be read), whether it is
/// named or extra (such as a comment), its children, and the child in its
/// `inner` field.
pub struct CstNode {
    pub id: usize,
    pub kind: String,
    pub range: Range,
    pub text: Result<String, String>,
    pub is_named: bool,
    pub is_extra: bool,
    pub children: Vec<CstNode>,
    pub inner: Option<Box<CstNode>>,
}

/// Why a source could not be turned into S-expressions.
#[derive(Debug)]
pub enum ParseError {
    TreeSitterError(String),
    UnexpectedNode(String),
}

/// A parse error as plain values.
pub enum ParseErrorView {
    TreeSitterError(Seq<char>),
    UnexpectedNode(Seq<char>),
}

impl View for ParseError {
    type V = ParseErrorView;

    open spec fn view(&self) -> ParseErrorView {
        match self {
            ParseError::TreeSitterError(s) => ParseErrorView::TreeSitterError(s@),
            ParseError::UnexpectedNode(s) => ParseErrorView::UnexpectedNode(s@),
        }
    }
}

/// An S-expression the parser adds: its value, its span, and the id of the
/// concrete node it comes from, if any.
pub type Emitted = (SExpView, Span, Option<usize>);

/// The span of a concrete node in the source `src`.
pub open spec fn node_span(node: CstNode, src: SourceId) -> Span {
    Span { range: node.range, source_id: src }
}

/// The text of a concrete node.
pub open spec fn text_of(node: CstNode) -> Result<Seq<char>, ParseErrorView> {
    match node.text {
        Ok(t) => Ok(t@),
        Err(e) => Err(ParseErrorView::TreeSitterError(e@)),
    }
}

/// `s` without the colons it starts with.
pub open spec fn trim_colons(s: Seq<char>) -> Seq<char>
    decreases s.len(),
{
    if s.len() > 0 && s[0] == ':' {
        trim_colons(s.drop_first())
    } else {
        s
    }
}

/// Whether a concrete kind is one of the quoting shortcuts.
pub open spec fn is_shortcut(k: Seq<char>) -> bool {
    k == "quote"@ || k == "quasiquote"@ || k == "unquote"@ || k == "splice"@
}

/// The S-expressions the parser adds for `node`, in order, the first at index
/// `base` of the arena of generation `gen`; the last is the one for `node` itself.
pub open spec fn emit(node: CstNode, src: SourceId, gen: nat, base: nat) -> Result<Seq<Emitted>, ParseErrorView>
    decreases node, 2nat,
{
    let sp = node_span(node, src);
    let k = node.kind@;
    let me = Some(node.id);
    if k == "float"@ || k == "integer"@ {
        match text_of(node) {
            Err(e) => Err(e),
            Ok(t) => Ok(seq![(SExpView::Number(t), sp, me)]),
        }
    } else if k == "boolean"@ {
        match text_of(node) {
            Err(e) => Err(e),
            Ok(t) => Ok(seq![(SExpView::Bool(t == "true"@), sp, me)]),
        }
    } else if k == "string"@ {
        match node.inner {
            None => Err(ParseErrorView::TreeSitterError("No inner node"@)),
            Some(inner) => match text_of(*inner) {
                Err(e) => Err(e),
                Ok(t) => Ok(seq![(SExpView::String(t), sp, me)]),
            },
        }
    } else if k == "keyword"@ {
        match text_of(node) {
            Err(e) => Err(e),
            Ok(t) => Ok(seq![(SExpView::Keyword(trim_colons(t)), sp, me)]),
        }
    } else if k == "symbol"@ {
        match text_of(node) {
            Err(e) => Err(e),
            Ok(t) => Ok(seq![(SExpView::Symbol(t), sp, me)]),
        }
    } else if k == "list"@ {
        match emit_children(node.children@, src, gen, base, true) {
            Err(e) => Err(e),
            Ok(r) => Ok(r.0.push((SExpView::List(r.1), sp, me))),
        }
    } else if k == "struct"@ || k == "array"@ {
        let head_name = if k == "struct"@ {
            "obj/struct"@
        } else {
            "list"@
        };
        match emit_children(node.children@, src, gen, base + 1, true) {
            Err(e) => Err(e),
            Ok(r) => Ok(
                seq![(SExpView::Symbol(head_name), sp, me)] + r.0.push(
                    (SExpView::List(seq![SExpId::make(base, gen)] + r.1), sp, me),
                ),
            ),
        }
    } else if is_shortcut(k) {
        emit_shortcut(node, src, gen, base)
    } else {
        Err(ParseErrorView::UnexpectedNode("Unexpected node kind: "@ + k))
    }
}

/// The S-expressions the parser adds for a quoting shortcut: its symbol, those
/// of the node in its `inner` field, and the list of the two.
pub open spec fn emit_shortcut(node: CstNode, src: SourceId, gen: nat, base: nat) -> Result<Seq<Emitted>, ParseErrorView>
    decreases node, 0nat,
{
    let sp = node_span(node, src);
    let me = Some(node.id);
    match node.inner {
        None => Err(ParseErrorView::TreeSitterError("No inner node"@)),
        Some(inner) => match emit(*inner, src, gen, base + 1) {
            Err(e) => Err(e),
            Ok(ns) => Ok(
                seq![(SExpView::Symbol(node.kind@), sp, me)] + ns.push(
                    (
                        SExpView::List(seq![SExpId::make(base, gen), SExpId::make(base + ns.len(), gen)]),
                        sp,
                        me,
                    ),
                ),
            ),
        },
    }
}

/// The S-expressions the parser adds for the children that are not extra (and,
/// where `named_only` holds, are named), from index `base` on, with the ids of
/// those children's S-expressions.
pub open spec fn emit_children(cs: Seq<CstNode>, src: SourceId, gen: nat, base: nat, named_only: bool) -> Result<
    (Seq<Emitted>, Seq<SExpId>),
    ParseErrorView,
>
    decreases cs, 1nat,
{
    if cs.len() == 0 {
        Ok((Seq::empty(), Seq::empty()))
    } else {
        match emit_children(cs.drop_last(), src, gen, base, named_only) {
            Err(e) => Err(e),
            Ok(r) => {
                let c = cs.last();
                if (named_only && !c.is_named) || c.is_extra {
                    Ok(r)
                } else {
                    match emit(c, src, gen, base + r.0.len()) {
                        Err(e) => Err(e),
                        Ok(ms) => Ok((r.0 + ms, r.1.push(SExpId::make((base + r.0.len() + ms.len() - 1) as nat, gen)))),
                    }
                }
            },
        }
    }
}

/// The S-expressions of `ns` without the concrete node they come from.
pub open spec fn emitted_nodes(ns: Seq<Emitted>) -> Seq<(SExpView, Span)> {
    ns.map_values(|e: Emitted| (e.0, e.1))
}

/// The table from concrete node ids to S-expressions after adding `ns`, the
/// first at index `base` of the arena of generation `gen`, to the table `m`:
/// a concrete node maps to the last S-expression added for it.
pub open spec fn record_ts(m: Map<usize, SExpId>, ns: Seq<Emitted>, base: nat, gen: nat) -> Map<
    usize,
    SExpId,
>
    decreases ns.len(),
{
    if ns.len() == 0 {
        m
    } else {
        let prev = record_ts(m, ns.drop_last(), base, gen);
        match ns.last().2 {
            Some(k) => prev.insert(k, SExpId::make((base + ns.len() - 1) as nat, gen)),
            None => prev,
        }
    }
}

/// Recording two runs of S-expressions one after the other records their concatenation.
pub proof fn lemma_record_ts_append(m: Map<usize, SExpId>, a: Seq<Emitted>, b: Seq<Emitted>, base: nat, gen: nat)
    ensures
        record_ts(m, a + b, base, gen) == record_ts(record_ts(m, a, base, gen), b, base + a.len(), gen),
    decreases b.len(),
{
    if b.len() == 0 {
        assert(a + b =~= a);
    } else {
        lemma_record_ts_append(m, a, b.drop_last(), base, gen);
        assert((a + b).drop_last() =~= a + b.drop_last());
    }
}

/// The S-expressions of one parsed source, in the order they were added, with
/// the root and the table from concrete node ids to S-expressions.
#[derive(Debug)]
pub struct AST {
    generation: usize,
    nodes: Vec<Spanned<SExp>>,
    root: Option<SExpId>,
    ts_nodes: HashMap<usize, SExpId>,
}

impl AST {
    /// The generation of this arena.
    pub closed spec fn gen(&self) -> nat {
        self.generation as nat
    }

    /// The S-expressions of the arena, in order, with their spans.
    pub closed spec fn node_views(&self) -> Seq<(SExpView, Span)> {
        self.nodes@.map_values(|n: Spanned<SExp>| (n.item@, n.span))
    }

    /// The root, if one was set.
    pub closed spec fn root_spec(&self) -> Option<SExpId> {
        self.root
    }

    /// The table from concrete node ids to S-expressions.
    pub closed spec fn ts_map(&self) -> Map<usize, SExpId> {
        self.ts_nodes@
    }

    /// Whether `id` names an S-expression of this arena.
    pub open spec fn has(&self, id: SExpId) -> bool {
        id.gen() == self.gen() && id.index() < self.node_views().len()
    }

    /// An empty arena of generation `generation`.
    fn new(generation: usize) -> (res: Self)
        ensures
            res.gen() == generation,
            res.node_views() == Seq::<(SExpView, Span)>::empty(),
            res.root_spec() is None,
            res.ts_map() == Map::<usize, SExpId>::empty(),
    {
        let res = AST { generation, nodes: Vec::new(), root: None, ts_nodes: HashMap::new() };
        assert(res.node_views() =~= Seq::<(SExpView, Span)>::empty());
        res
    }

    fn new_id(&self, id: usize) -> (res: SExpId)
        ensures
            res == SExpId::make(id as nat, self.gen()),
            res.index() == id,
            res.gen() == self.gen(),
    {
        SExpId { id, generation: self.generation }
    }

    /// Makes `id` the root.
    pub fn set_root(&mut self, id: SExpId)
        ensures
            final(self).root_spec() == Some(id),
            final(self).gen() == old(self).gen(),
            final(self).node_views() == old(self).node_views(),
            final(self).ts_map() == old(self).ts_map(),
    {
        self.root = Some(id);
    }

    /// Adds an S-expression with its span at the end of the arena, and records it
    /// as the S-expression of the concrete node `ts_node`, if one is given.
    pub fn add_node(&mut self, node: SExp, span: Span, ts_node: Option<usize>) -> (res: SExpId)
        ensures
            final(self).gen() == old(self).gen(),
            final(self).root_spec() == old(self).root_spec(),
            final(self).node_views() == old(self).node_views().push((node@, span)),
            res == SExpId::make(old(self).node_views().len(), old(self).gen()),
            res.index() == old(self).node_views().len(),
            res.gen() == old(self).gen(),
            final(self).ts_map() == record_ts(
                old(self).ts_map(),
                seq![(node@, span, ts_node)],
                old(self).node_views().len(),
                old(self).gen(),
            ),
    {
        let ghost v = node@;
        let id = self.nodes.len();
        self.nodes.push(Spanned::new(node, span));
        let id = self.new_id(id);
        if let Some(k) = ts_node {
            self.ts_nodes.insert(k, id);
        }
        proof {
            let s: Seq<Emitted> = seq![(v, span, ts_node)];
            assert(s.drop_last() =~= Seq::<Emitted>::empty());
            let base = old(self).node_views().len();
            assert(record_ts(old(self).ts_map(), s.drop_last(), base, old(self).gen()) == old(self).ts_map());
            assert(s.last().2 == ts_node);
            assert(id == SExpId::make((base + s.len() - 1) as nat, old(self).gen()));
            assert(self.node_views() =~= old(self).node_views().push((v, span)));
        }
        id
    }

    /// The S-expression recorded for the concrete node with id `node`.
    pub fn get_from_ts(&self, node: usize) -> (res: Option<SExpId>)
        ensures
            res == (if self.ts_map().contains_key(node) {
                Some(self.ts_map()[node])
            } else {
                None
            }),
    {
        match self.ts_nodes.get(&node) {
            Some(id) => Some(*id),
            None => None,
        }
    }

    /// Replaces the S-expression `id` and its span.
    pub fn set(&mut self, id: SExpId, node: SExp, span: Span)
        requires
            old(self).has(id),
        ensures
            final(self).gen() == old(self).gen(),
            final(self).root_spec() == old(self).root_spec(),
            final(self).ts_map() == old(self).ts_map(),
            final(self).node_views() == old(self).node_views().update(id.index() as int, (node@, span)),
    {
        let ghost v = node@;
        self.nodes.set(id.id, Spanned::new(node, span));
        assert(self.node_views() =~= old(self).node_views().update(id.index() as int, (v, span)));
    }

    /// The S-expression `id` with its span.
    pub fn get(&self, id: SExpId) -> (res: &Spanned<SExp>)
        requires
            self.has(id),
        ensures
            (res.item@, res.span) == self.node_views()[id.index() as int],
    {
        &self.nodes[id.id]
    }

    /// The S-expression `id` with its span, if an id is given.
    pub fn maybe_get(&self, id: Option<SExpId>) -> (res: Option<&Spanned<SExp>>)
        requires
            id matches Some(i) ==> self.has(i),
        ensures
            id is None ==> res is None,
            id matches Some(i) ==> res matches Some(r) && (r.item@, r.span) == self.node_views()[i.index() as int],
    {
        match id {
            Some(id) => Some(self.get(id)),
            None => None,
        }
    }

    /// All S-expressions of the arena, in order.
    pub fn nodes(&self) -> (res: &[Spanned<SExp>])
        ensures
            res@.map_values(|n: Spanned<SExp>| (n.item@, n.span)) == self.node_views(),
    {
        self.nodes.as_slice()
    }

    /// The root S-expression, if a root was set.
    pub fn root(&self) -> (res: Option<&Spanned<SExp>>)
        requires
            self.root_spec() matches Some(r) ==> self.has(r),
        ensures
            self.root_spec() is None ==> res is None,
            self.root_spec() matches Some(r) ==> res matches Some(x) && (x.item@, x.span) == self.node_views()[r.index() as int],
    {
        self.maybe_get(self.root)
    }

    /// The id of the root, if a root was set.
    pub fn root_id(&self) -> (res: Option<SExpId>)
        ensures
            res == self.root_spec(),
    {
        self.root
    }

    /// The id of the root with the root's span, if a root was set.
    pub fn spanned_root_id(&self) -> (res: Option<Spanned<SExpId>>)
        requires
            self.root_spec() matches Some(r) ==> self.has(r),
        ensures
            self.root_spec() is None ==> res is None,
            self.root_spec() matches Some(r) ==> res matches Some(x) && x.item() == r && x.span
                == self.node_views()[r.index() as int].1,
    {
        match self.root {
            Some(id) => {
                let span = self.get(id).span;
                Some(Spanned::new(id, span))
            },
            None => None,
        }
    }

    /// The generation of this arena.
    pub fn generation(&self) -> (res: usize)
        ensures
            res == self.gen(),
    {
        self.generation
    }
}

/// The S-expressions the parser adds for a whole source file from index `base`
/// on: those of its top-level nodes that are not extra, then the symbol `do`,
/// then the root: the list of `do` and those nodes.
pub open spec fn emit_source(root: CstNode, src: SourceId, gen: nat, base: nat) -> Result<Seq<Emitted>, ParseErrorView> {
    if root.kind@ != "source_file"@ {
        Err(ParseErrorView::UnexpectedNode("Expected source_file, got "@ + root.kind@))
    } else if root.children@.len() == 0 {
        Err(ParseErrorView::UnexpectedNode("Empty source file"@))
    } else {
        match emit_children(root.children@, src, gen, base, false) {
            Err(e) => Err(e),
            Ok(r) => {
                let sp = node_span(root, src);
                Ok(
                    r.0 + seq![
                        (SExpView::Symbol("do"@), sp, None),
                        (SExpView::List(seq![SExpId::make(base + r.0.len(), gen)] + r.1), sp, None),
                    ],
                )
            },
        }
    }
}

/// The items of a list, and nothing for any other S-expression.
pub open spec fn items_of(v: SExpView) -> Seq<SExpId> {
    match v {
        SExpView::List(l) => l,
        _ => Seq::empty(),
    }
}

/// `id` is one of the entries `lo` to `hi` (excluded) of the arena of generation `gen`.
pub open spec fn id_in(id: SExpId, lo: nat, hi: nat, gen: nat) -> bool {
    exists|j: nat| lo <= j < hi && id == SExpId::make(j, gen)
}

/// Every list among the S-expressions `ns`, the first at index `base` of the
/// arena of generation `gen`, lists entries of that arena from `base` on that
/// come before it.
pub open spec fn emitted_back(ns: Seq<Emitted>, base: nat, gen: nat) -> bool {
    forall|p: int, k: int|
        0 <= p < ns.len() && 0 <= k < items_of(ns[p].0).len() ==> id_in(
            #[trigger] items_of(ns[p].0)[k],
            base,
            (base + p) as nat,
            gen,
        )
}

/// Every list of the arena of generation `gen` lists entries of that arena that come before it.
pub open spec fn points_back(views: Seq<(SExpView, Span)>, gen: nat) -> bool {
    forall|p: int, k: int|
        0 <= p < views.len() && 0 <= k < items_of(views[p].0).len() ==> {
            &&& (#[trigger] items_of(views[p].0)[k]).gen() == gen
            &&& items_of(views[p].0)[k].index() < p
        }
}

proof fn lemma_id_in_make(j: nat, lo: nat, hi: nat, gen: nat)
    requires
        lo <= j < hi,
    ensures
        id_in(SExpId::make(j, gen), lo, hi, gen),
{
}

proof fn lemma_id_in_widen(id: SExpId, lo: nat, hi: nat, lo2: nat, hi2: nat, gen: nat)
    requires
        id_in(id, lo, hi, gen),
        lo2 <= lo,
        hi <= hi2,
    ensures
        id_in(id, lo2, hi2, gen),
{
}

/// Two runs that each point back make a run that points back.
proof fn lemma_emitted_back_append(a: Seq<Emitted>, b: Seq<Emitted>, base: nat, gen: nat)
    requires
        emitted_back(a, base, gen),
        emitted_back(b, base + a.len(), gen),
    ensures
        emitted_back(a + b, base, gen),
{
    assert forall|p: int, k: int| 0 <= p < (a + b).len() && 0 <= k < items_of((a + b)[p].0).len() implies id_in(
        #[trigger] items_of((a + b)[p].0)[k],
        base,
        (base + p) as nat,
        gen,
    ) by {
        if p >= a.len() {
            assert((a + b)[p] == b[p - a.len()]);
            assert(id_in(items_of(b[p - a.len()].0)[k], base + a.len(), (base + a.len() + (p - a.len())) as nat, gen));
            lemma_id_in_widen(items_of(b[p - a.len()].0)[k], base + a.len(), (base + p) as nat, base, (base + p) as nat, gen);
        } else {
            assert((a + b)[p] == a[p]);
        }
    }
}

/// A run of one S-expression that is not a list points back.
proof fn lemma_emitted_back_atom(e: Emitted, base: nat, gen: nat)
    requires
        items_of(e.0).len() == 0,
    ensures
        emitted_back(seq![e], base, gen),
{
}

/// A run that points back, followed by a list of entries of the run, points back.
proof fn lemma_emitted_back_push(a: Seq<Emitted>, e: Emitted, base: nat, gen: nat)
    requires
        emitted_back(a, base, gen),
        forall|k: int| 0 <= k < items_of(e.0).len() ==> id_in(#[trigger] items_of(e.0)[k], base, base + a.len(), gen),
    ensures
        emitted_back(a.push(e), base, gen),
{
    assert forall|p: int, k: int| 0 <= p < a.push(e).len() && 0 <= k < items_of(a.push(e)[p].0).len() implies id_in(
        #[trigger] items_of(a.push(e)[p].0)[k],
        base,
        (base + p) as nat,
        gen,
    ) by {
        if p < a.len() {
            assert(a.push(e)[p] == a[p]);
        } else {
            assert(a.push(e)[p] == e);
        }
    }
}

/// The S-expressions the parser adds for a node point back, and there is at least one.
proof fn lemma_emit_back(node: CstNode, src: SourceId, gen: nat, base: nat)
    ensures
        emit(node, src, gen, base) matches Ok(ns) ==> emitted_back(ns, base, gen) && ns.len() > 0,
    decreases node, 2nat,
{
    let sp = node_span(node, src);
    let me = Some(node.id);
    let k = node.kind@;
    if k == "float"@ || k == "integer"@ || k == "boolean"@ || k == "string"@ || k == "keyword"@ || k == "symbol"@ {
        if let Ok(ns) = emit(node, src, gen, base) {
            lemma_emitted_back_atom(ns[0], base, gen);
            assert(ns =~= seq![ns[0]]);
        }
    } else if k == "list"@ {
        lemma_emit_children_back(node.children@, src, gen, base, true);
        if let Ok(r) = emit_children(node.children@, src, gen, base, true) {
            let e: Emitted = (SExpView::List(r.1), sp, me);
            lemma_emitted_back_push(r.0, e, base, gen);
        }
    } else if k == "struct"@ || k == "array"@ {
        lemma_emit_children_back(node.children@, src, gen, base + 1, true);
        if let Ok(r) = emit_children(node.children@, src, gen, base + 1, true) {
            let head_name = if k == "struct"@ {
                "obj/struct"@
            } else {
                "list"@
            };
            let h: Emitted = (SExpView::Symbol(head_name), sp, me);
            let items = seq![SExpId::make(base, gen)] + r.1;
            let e: Emitted = (SExpView::List(items), sp, me);
            lemma_emitted_back_atom(h, base, gen);
            lemma_emitted_back_append(seq![h], r.0, base, gen);
            assert forall|j: int| 0 <= j < items_of(e.0).len() implies id_in(
                #[trigger] items_of(e.0)[j],
                base,
                base + (seq![h] + r.0).len(),
                gen,
            ) by {
                if j == 0 {
                    lemma_id_in_make(base, base, base + 1 + r.0.len(), gen);
                } else {
                    assert(items[j] == r.1[j - 1]);
                    lemma_id_in_widen(r.1[j - 1], base + 1, base + 1 + r.0.len(), base, base + 1 + r.0.len(), gen);
                }
            }
            lemma_emitted_back_push(seq![h] + r.0, e, base, gen);
            assert(seq![h] + r.0.push(e) =~= (seq![h] + r.0).push(e));
        }
    } else if is_shortcut(k) {
        lemma_emit_shortcut_back(node, src, gen, base);
    }
}

/// The S-expressions the parser adds for a quoting shortcut point back.
proof fn lemma_emit_shortcut_back(node: CstNode, src: SourceId, gen: nat, base: nat)
    ensures
        emit_shortcut(node, src, gen, base) matches Ok(ns) ==> emitted_back(ns, base, gen) && ns.len() > 0,
    decreases node, 0nat,
{
    let sp = node_span(node, src);
    let me = Some(node.id);
    if let Some(inner) = node.inner {
        lemma_emit_back(*inner, src, gen, base + 1);
        if let Ok(ns) = emit(*inner, src, gen, base + 1) {
            let h: Emitted = (SExpView::Symbol(node.kind@), sp, me);
            let items = seq![SExpId::make(base, gen), SExpId::make(base + ns.len(), gen)];
            let e: Emitted = (SExpView::List(items), sp, me);
            lemma_emitted_back_atom(h, base, gen);
            lemma_emitted_back_append(seq![h], ns, base, gen);
            assert forall|j: int| 0 <= j < items_of(e.0).len() implies id_in(
                #[trigger] items_of(e.0)[j],
                base,
                base + (seq![h] + ns).len(),
                gen,
            ) by {
                if j == 0 {
                    lemma_id_in_make(base, base, base + 1 + ns.len(), gen);
                } else {
                    lemma_id_in_make(base + ns.len(), base, base + 1 + ns.len(), gen);
                }
            }
            lemma_emitted_back_push(seq![h] + ns, e, base, gen);
            assert(seq![h] + ns.push(e) =~= (seq![h] + ns).push(e));
        }
    }
}

/// The S-expressions the parser adds for children point back, and the ids of the
/// children's S-expressions are among them.
proof fn lemma_emit_children_back(cs: Seq<CstNode>, src: SourceId, gen: nat, base: nat, named_only: bool)
    ensures
        emit_children(cs, src, gen, base, named_only) matches Ok(r) ==> {
            &&& emitted_back(r.0, base, gen)
            &&& forall|k: int| 0 <= k < r.1.len() ==> id_in(#[trigger] r.1[k], base, base + r.0.len(), gen)
        },
    decreases cs, 1nat,
{
    if cs.len() > 0 {
        lemma_emit_children_back(cs.drop_last(), src, gen, base, named_only);
        if let Ok(r) = emit_children(cs.drop_last(), src, gen, base, named_only) {
            let c = cs.last();
            if !((named_only && !c.is_named) || c.is_extra) {
                lemma_emit_back(c, src, gen, base + r.0.len());
                if let Ok(ms) = emit(c, src, gen, base + r.0.len()) {
                    lemma_emitted_back_append(r.0, ms, base, gen);
                    let ids = r.1.push(SExpId::make((base + r.0.len() + ms.len() - 1) as nat, gen));
                    assert forall|k: int| 0 <= k < ids.len() implies id_in(#[trigger] ids[k], base, base + (r.0 + ms).len(), gen) by {
                        if k < r.1.len() {
                            lemma_id_in_widen(r.1[k], base, base + r.0.len(), base, base + (r.0 + ms).len(), gen);
                        } else {
                            lemma_id_in_make((base + r.0.len() + ms.len() - 1) as nat, base, base + (r.0 + ms).len(), gen);
                        }
                    }
                }
            }
        }
    }
}

/// The S-expressions the parser adds for a whole source file point back.
pub proof fn lemma_emit_source_back(root: CstNode, src: SourceId, gen: nat, base: nat)
    ensures
        emit_source(root, src, gen, base) matches Ok(ns) ==> emitted_back(ns, base, gen),
{
    if root.kind@ == "source_file"@ && root.children@.len() > 0 {
        lemma_emit_children_back(root.children@, src, gen, base, false);
        if let Ok(r) = emit_children(root.children@, src, gen, base, false) {
            let sp = node_span(root, src);
            let h: Emitted = (SExpView::Symbol("do"@), sp, None);
            let items = seq![SExpId::make(base + r.0.len(), gen)] + r.1;
            let e: Emitted = (SExpView::List(items), sp, None);
            lemma_emitted_back_atom(h, base + r.0.len(), gen);
            lemma_emitted_back_append(r.0, seq![h], base, gen);
            assert forall|j: int| 0 <= j < items_of(e.0).len() implies id_in(
                #[trigger] items_of(e.0)[j],
                base,
                base + (r.0 + seq![h]).len(),
                gen,
            ) by {
                if j == 0 {
                    lemma_id_in_make(base + r.0.len(), base, base + r.0.len() + 1, gen);
                } else {
                    assert(items[j] == r.1[j - 1]);
                    lemma_id_in_widen(r.1[j - 1], base, base + r.0.len(), base, base + r.0.len() + 1, gen);
                }
            }
            lemma_emitted_back_push(r.0 + seq![h], e, base, gen);
            assert(r.0 + seq![h, e] =~= (r.0 + seq![h]).push(e));
        }
    }
}

/// An arena made of a run that points back, the first at its start, points back,
/// as long as the arena fits the machine's ids.
pub proof fn lemma_points_back(ns: Seq<Emitted>, gen: nat)
    requires
        emitted_back(ns, 0, gen),
        ns.len() <= usize::MAX,
        gen <= usize::MAX,
    ensures
        points_back(emitted_nodes(ns), gen),
{
    let views = emitted_nodes(ns);
    assert forall|p: int, k: int| 0 <= p < views.len() && 0 <= k < items_of(views[p].0).len() implies {
        &&& (#[trigger] items_of(views[p].0)[k]).gen() == gen
        &&& items_of(views[p].0)[k].index() < p
    } by {
        assert(views[p].0 == ns[p].0);
        let id = items_of(ns[p].0)[k];
        assert(id_in(id, 0, p as nat, gen));
        let j = choose|j: nat| 0 <= j < p && id == SExpId::make(j, gen);
        SExpId::lemma_make(j, gen);
    }
}

/// `after` is `before` with the S-expressions `ns` added at its end.
pub open spec fn extends_by(before: AST, after: AST, ns: Seq<Emitted>) -> bool {
    &&& after.gen() == before.gen()
    &&& after.root_spec() == before.root_spec()
    &&& after.node_views() == before.node_views() + emitted_nodes(ns)
    &&& after.ts_map() == record_ts(before.ts_map(), ns, before.node_views().len(), before.gen())
}

/// Adding one run of S-expressions and then another adds their concatenation.
pub proof fn lemma_extends_trans(a: AST, b: AST, c: AST, ns1: Seq<Emitted>, ns2: Seq<Emitted>)
    requires
        extends_by(a, b, ns1),
        extends_by(b, c, ns2),
    ensures
        extends_by(a, c, ns1 + ns2),
{
    lemma_record_ts_append(a.ts_map(), ns1, ns2, a.node_views().len(), a.gen());
    assert(emitted_nodes(ns1 + ns2) =~= emitted_nodes(ns1) + emitted_nodes(ns2));
    assert(a.node_views() + emitted_nodes(ns1 + ns2) =~= a.node_views() + emitted_nodes(ns1) + emitted_nodes(ns2));
}

/// One call of `add_node` extends the arena by one S-expression.
pub(crate) proof fn lemma_one(before: AST, after: AST, e: Emitted)
    requires
        after.gen() == before.gen(),
        after.root_spec() == before.root_spec(),
        after.node_views() == before.node_views().push((e.0, e.1)),
        after.ts_map() == record_ts(before.ts_map(), seq![e], before.node_views().len(), before.gen()),
    ensures
        extends_by(before, after, seq![e]),
{
    assert(emitted_nodes(seq![e]) =~= seq![(e.0, e.1)]);
    assert(before.node_views().push((e.0, e.1)) =~= before.node_views() + seq![(e.0, e.1)]);
}

/// Once a prefix of the children fails, all of them fail the same way.
pub proof fn lemma_emit_children_err(cs: Seq<CstNode>, i: int, src: SourceId, gen: nat, base: nat, named_only: bool)
    requires
        0 <= i <= cs.len(),
        emit_children(cs.take(i), src, gen, base, named_only) is Err,
    ensures
        emit_children(cs, src, gen, base, named_only) == emit_children(cs.take(i), src, gen, base, named_only),
    decreases cs.len(),
{
    if cs.len() == i {
        assert(cs.take(i) =~= cs);
    } else {
        assert(cs.drop_last().take(i) =~= cs.take(i));
        lemma_emit_children_err(cs.drop_last(), i, src, gen, base, named_only);
    }
}

/// Whether `kind` is the text `lit`.
fn kind_is(kind: &String, lit: &str) -> (res: bool)
    ensures
        res == (kind@ == lit@),
{
    kind.eq(&String::from_str(lit))
}

/// The text of a concrete node, or the error that reading it gave.
fn node_text(node: &CstNode) -> (res: Result<String, ParseError>)
    ensures
        match text_of(*node) {
            Ok(t) => res matches Ok(r) && r@ == t,
            Err(e) => res matches Err(x) && x@ == e,
        },
{
    match &node.text {
        Ok(t) => Ok(t.clone()),
        Err(e) => Err(ParseError::TreeSitterError(e.clone())),
    }
}

/// `s` without the colons it starts with.
pub(crate) fn trim_leading_colons(s: &str) -> (res: String)
    ensures
        res@ == trim_colons(s@),
{
    let n = s.unicode_len();
    let mut i: usize = 0;
    assert(s@.subrange(0, n as int) =~= s@);
    while i < n && s.get_char(i) == ':'
        invariant
            i <= n,
            n == s@.len(),
            trim_colons(s@) == trim_colons(s@.subrange(i as int, n as int)),
        decreases n - i,
    {
        assert(s@.subrange(i as int, n as int).drop_first() =~= s@.subrange(i + 1, n as int));
        i = i + 1;
    }
    String::from_str(s.substring_char(i, n))
}

/// Builds the S-expressions of one source from its concrete tree, in an arena of its own.
pub struct SExpParser {
    ast: AST,
    source_id: SourceId,
}

impl SExpParser {
    /// The arena being filled.
    pub closed spec fn ast_spec(&self) -> AST {
        self.ast
    }

    /// The source the concrete tree was read from.
    pub closed spec fn source(&self) -> SourceId {
        self.source_id
    }

    /// The S-expression for `node` and those below it, added at the end of the arena.
    fn node_to_sexp(&mut self, node: &CstNode) -> (res: Result<SExpId, ParseError>)
        ensures
            final(self).source() == old(self).source(),
            final(self).ast_spec().gen() == old(self).ast_spec().gen(),
            final(self).ast_spec().root_spec() == old(self).ast_spec().root_spec(),
            match emit(*node, old(self).source(), old(self).ast_spec().gen(), old(self).ast_spec().node_views().len()) {
                Ok(ns) => res matches Ok(id) && extends_by(old(self).ast_spec(), final(self).ast_spec(), ns) && ns.len() > 0
                    && id == SExpId::make(
                    (old(self).ast_spec().node_views().len() + ns.len() - 1) as nat,
                    old(self).ast_spec().gen(),
                ),
                Err(e) => res matches Err(x) && x@ == e,
            },
        decreases node, 2nat,
    {
        let span = Span { range: node.range, source_id: self.source_id };
        let me = Some(node.id);
        let ghost before = self.ast;
        if kind_is(&node.kind, "float") || kind_is(&node.kind, "integer") {
            match node_text(node) {
                Err(e) => Err(e),
                Ok(t) => {
                    let ghost v = SExpView::Number(t@);
                    let id = self.ast.add_node(SExp::Number(t), span, me);
                    proof { lemma_one(before, self.ast, (v, span, me)); }
                    Ok(id)
                },
            }
        } else if kind_is(&node.kind, "boolean") {
            match node_text(node) {
                Err(e) => Err(e),
                Ok(t) => {
                    let b = t.eq(&String::from_str("true"));
                    let id = self.ast.add_node(SExp::Bool(b), span, me);
                    proof { lemma_one(before, self.ast, (SExpView::Bool(b), span, me)); }
                    Ok(id)
                },
            }
        } else if kind_is(&node.kind, "string") {
            match &node.inner {
                None => Err(ParseError::TreeSitterError(String::from_str("No inner node"))),
                Some(inner) => match node_text(inner) {
                    Err(e) => Err(e),
                    Ok(t) => {
                        let ghost v = SExpView::String(t@);
                        let id = self.ast.add_node(SExp::String(t), span, me);
                        proof { lemma_one(before, self.ast, (v, span, me)); }
                        Ok(id)
                    },
                },
            }
        } else if kind_is(&node.kind, "keyword") {
            match node_text(node) {
                Err(e) => Err(e),
                Ok(t) => {
                    let k = trim_leading_colons(t.as_str());
                    let ghost v = SExpView::Keyword(k@);
                    let id = self.ast.add_node(SExp::Keyword(k), span, me);
                    proof { lemma_one(before, self.ast, (v, span, me)); }
                    Ok(id)
                },
            }
        } else if kind_is(&node.kind, "symbol") {
            match node_text(node) {
                Err(e) => Err(e),
                Ok(t) => {
                    let ghost v = SExpView::Symbol(t@);
                    let id = self.ast.add_node(SExp::Symbol(t), span, me);
                    proof { lemma_one(before, self.ast, (v, span, me)); }
                    Ok(id)
                },
            }
        } else if kind_is(&node.kind, "list") {
            let mut items: Vec<SExpId> = Vec::new();
            match self.children_to_sexps(node, &mut items, true) {
                Err(e) => Err(e),
                Ok(()) => {
                    let ghost mid = self.ast;
                    let ghost v = SExpView::List(items@);
                    let id = self.ast.add_node(SExp::List(items), span, me);
                    proof {
                        lemma_one(mid, self.ast, (v, span, me));
                        let r = emit_children(node.children@, self.source_id, before.gen(), before.node_views().len(), true)->Ok_0;
                        lemma_extends_trans(before, mid, self.ast, r.0, seq![(v, span, me)]);
                        assert(r.0 + seq![(v, span, me)] =~= r.0.push((v, span, me)));
                    }
                    Ok(id)
                },
            }
        } else if kind_is(&node.kind, "struct") || kind_is(&node.kind, "array") {
            let head = if kind_is(&node.kind, "struct") {
                String::from_str("obj/struct")
            } else {
                String::from_str("list")
            };
            let ghost hv = SExpView::Symbol(head@);
            let sym = self.ast.add_node(SExp::Symbol(head), span, me);
            proof { lemma_one(before, self.ast, (hv, span, me)); }
            let ghost first = self.ast;
            let mut items: Vec<SExpId> = Vec::new();
            items.push(sym);
            match self.children_to_sexps(node, &mut items, true) {
                Err(e) => Err(e),
                Ok(()) => {
                    let ghost mid = self.ast;
                    let ghost v = SExpView::List(items@);
                    let id = self.ast.add_node(SExp::List(items), span, me);
                    proof {
                        lemma_one(mid, self.ast, (v, span, me));
                        let r = emit_children(node.children@, self.source_id, before.gen(), before.node_views().len() + 1, true)->Ok_0;
                        lemma_extends_trans(first, mid, self.ast, r.0, seq![(v, span, me)]);
                        lemma_extends_trans(before, first, self.ast, seq![(hv, span, me)], r.0 + seq![(v, span, me)]);
                        assert(r.0 + seq![(v, span, me)] =~= r.0.push((v, span, me)));
                        assert(items@ =~= seq![sym] + r.1);
                    }
                    Ok(id)
                },
            }
        } else if kind_is(&node.kind, "quote") || kind_is(&node.kind, "quasiquote") || kind_is(
            &node.kind,
            "unquote",
        ) || kind_is(&node.kind, "splice") {
            self.shortcut(span, node)
        } else {
            Err(ParseError::UnexpectedNode(crate::text::concat2("Unexpected node kind: ", node.kind.as_str())))
        }
    }

    /// The S-expressions for the children of `node` that are not extra (and,
    /// where `named_only` holds, are named), in order; their ids go to `items`.
    fn children_to_sexps(&mut self, node: &CstNode, items: &mut Vec<SExpId>, named_only: bool) -> (res: Result<(), ParseError>)
        ensures
            final(self).source() == old(self).source(),
            final(self).ast_spec().gen() == old(self).ast_spec().gen(),
            final(self).ast_spec().root_spec() == old(self).ast_spec().root_spec(),
            match emit_children(
                node.children@,
                old(self).source(),
                old(self).ast_spec().gen(),
                old(self).ast_spec().node_views().len(),
                named_only,
            ) {
                Ok(r) => res is Ok && extends_by(old(self).ast_spec(), final(self).ast_spec(), r.0)
                    && final(items)@ == old(items)@ + r.1,
                Err(e) => res matches Err(x) && x@ == e,
            },
        decreases node, 1nat,
    {
        let ghost src = self.source_id;
        let ghost gen = self.ast.gen();
        let ghost base = self.ast.node_views().len();
        let n = node.children.len();
        let mut i: usize = 0;
        proof {
            assert(node.children@.take(0) =~= Seq::<CstNode>::empty());
            assert(emitted_nodes(Seq::<Emitted>::empty()) =~= Seq::<(SExpView, Span)>::empty());
            assert(self.ast.node_views() + emitted_nodes(Seq::<Emitted>::empty()) =~= self.ast.node_views());
            assert(items@ + Seq::<SExpId>::empty() =~= items@);
        }
        while i < n
            invariant
                i <= n,
                n == node.children@.len(),
                self.source_id == src,
                base == old(self).ast_spec().node_views().len(),
                gen == old(self).ast_spec().gen(),
                src == old(self).source(),
                emit_children(node.children@.take(i as int), src, gen, base, named_only) matches Ok(r) && extends_by(
                    old(self).ast_spec(),
                    self.ast,
                    r.0,
                ) && items@ == old(items)@ + r.1,
            decreases n - i,
        {
            let c = &node.children[i];
            let ghost r = emit_children(node.children@.take(i as int), src, gen, base, named_only)->Ok_0;
            proof {
                assert(node.children@.take(i + 1).drop_last() =~= node.children@.take(i as int));
                assert(node.children@.take(i + 1).last() == node.children@[i as int]);
            }
            if (named_only && !c.is_named) || c.is_extra {
            } else {
                let ghost mid = self.ast;
                proof {
                    assert(decreases_to!(node.children => node.children@));
                }
                match self.node_to_sexp(c) {
                    Err(e) => {
                        proof { lemma_emit_children_err(node.children@, i + 1, src, gen, base, named_only); }
                        return Err(e);
                    },
                    Ok(id) => {
                        let ghost ms = emit(*c, src, gen, base + r.0.len())->Ok_0;
                        items.push(id);
                        proof {
                            lemma_extends_trans(old(self).ast_spec(), mid, self.ast, r.0, ms);
                            assert(items@ =~= old(items)@ + r.1.push(id));
                        }
                    },
                }
            }
            i = i + 1;
        }
        proof {
            assert(node.children@.take(n as int) =~= node.children@);
        }
        Ok(())
    }

    /// A quoting shortcut: the list of the shortcut's symbol and the S-expression
    /// of the node in its `inner` field.
    fn shortcut(&mut self, span: Span, node: &CstNode) -> (res: Result<SExpId, ParseError>)
        requires
            span == node_span(*node, old(self).source()),
        ensures
            final(self).source() == old(self).source(),
            final(self).ast_spec().gen() == old(self).ast_spec().gen(),
            final(self).ast_spec().root_spec() == old(self).ast_spec().root_spec(),
            match emit_shortcut(*node, old(self).source(), old(self).ast_spec().gen(), old(self).ast_spec().node_views().len()) {
                Ok(ns) => res matches Ok(id) && extends_by(old(self).ast_spec(), final(self).ast_spec(), ns) && ns.len() > 0
                    && id == SExpId::make(
                    (old(self).ast_spec().node_views().len() + ns.len() - 1) as nat,
                    old(self).ast_spec().gen(),
                ),
                Err(e) => res matches Err(x) && x@ == e,
            },
        decreases node, 1nat,
    {
        let me = Some(node.id);
        let ghost before = self.ast;
        let ghost hv = SExpView::Symbol(node.kind@);
        let sym = self.ast.add_node(SExp::Symbol(node.kind.clone()), span, me);
        proof { lemma_one(before, self.ast, (hv, span, me)); }
        let ghost first = self.ast;
        match &node.inner {
            None => Err(ParseError::TreeSitterError(String::from_str("No inner node"))),
            Some(inner) => match self.node_to_sexp(inner) {
                Err(e) => Err(e),
                Ok(inner_id) => {
                    let ghost mid = self.ast;
                    let mut items: Vec<SExpId> = Vec::new();
                    items.push(sym);
                    items.push(inner_id);
                    assert(items@ =~= seq![sym, inner_id]);
                    let ghost v = SExpView::List(items@);
                    let id = self.ast.add_node(SExp::List(items), span, me);
                    proof {
                        let ns = emit(**inner, self.source_id, before.gen(), before.node_views().len() + 1)->Ok_0;
                        lemma_one(mid, self.ast, (v, span, me));
                        lemma_extends_trans(first, mid, self.ast, ns, seq![(v, span, me)]);
                        lemma_extends_trans(before, first, self.ast, seq![(hv, span, me)], ns + seq![(v, span, me)]);
                        assert(ns + seq![(v, span, me)] =~= ns.push((v, span, me)));
                    }
                    Ok(id)
                },
            },
        }
    }

    /// A parser for the source `source_id` that fills a fresh arena of `asts`.
    pub fn new(asts: &mut ASTS, source_id: SourceId) -> (res: Result<Self, ParseError>)
        requires
            old(asts).generation_spec() < usize::MAX,
        ensures
            res matches Ok(p) && p.source() == source_id && p.ast_spec().gen() == old(asts).generation_spec()
                && p.ast_spec().node_views().len() == 0 && p.ast_spec().ts_map() == Map::<usize, SExpId>::empty()
                && p.ast_spec().root_spec() is None,
            final(asts).generation_spec() == old(asts).generation_spec() + 1,
            final(asts).arenas() == old(asts).arenas(),
            final(asts).by_source() == old(asts).by_source(),
    {
        Ok(SExpParser { ast: asts.new_ast(), source_id })
    }

    /// The arena for a whole source file: the S-expressions of its top-level
    /// nodes that are not extra, and a root that lists them after the symbol `do`.
    pub fn parse_with_tree(self, root: &CstNode) -> (res: Result<AST, ParseError>)
        ensures
            match emit_source(*root, self.source(), self.ast_spec().gen(), self.ast_spec().node_views().len()) {
                Ok(ns) => res matches Ok(a) && a.gen() == self.ast_spec().gen() && a.node_views()
                    == self.ast_spec().node_views() + emitted_nodes(ns) && a.ts_map() == record_ts(
                    self.ast_spec().ts_map(),
                    ns,
                    self.ast_spec().node_views().len(),
                    self.ast_spec().gen(),
                ) && a.root_spec() == Some(
                    SExpId::make(
                        (self.ast_spec().node_views().len() + ns.len() - 1) as nat,
                        self.ast_spec().gen(),
                    ),
                ),
                Err(e) => res matches Err(x) && x@ == e,
            },
    {
        if !kind_is(&root.kind, "source_file") {
            return Err(
                ParseError::UnexpectedNode(crate::text::concat2("Expected source_file, got ", root.kind.as_str())),
            );
        }
        if root.children.len() == 0 {
            return Err(ParseError::UnexpectedNode(String::from_str("Empty source file")));
        }
        let mut this = self;
        let ghost before = this.ast;
        let ghost gen = this.ast.gen();
        let ghost base = this.ast.node_views().len();
        let mut ids: Vec<SExpId> = Vec::new();
        match this.children_to_sexps(root, &mut ids, false) {
            Err(e) => Err(e),
            Ok(()) => {
                let ghost r = emit_children(root.children@, this.source_id, gen, base, false)->Ok_0;
                let ghost mid = this.ast;
                let span = Span { range: root.range, source_id: this.source_id };
                let do_symbol = this.ast.add_node(SExp::Symbol(String::from_str("do")), span, None);
                let ghost e1: Emitted = (SExpView::Symbol("do"@), span, None);
                proof { lemma_one(mid, this.ast, e1); }
                let ghost mid2 = this.ast;
                ids.insert(0, do_symbol);
                let ghost v = SExpView::List(ids@);
                let top = this.ast.add_node(SExp::List(ids), span, None);
                let ghost e2: Emitted = (v, span, None);
                proof {
                    lemma_one(mid2, this.ast, e2);
                    lemma_extends_trans(mid, mid2, this.ast, seq![e1], seq![e2]);
                    lemma_extends_trans(before, mid, this.ast, r.0, seq![e1] + seq![e2]);
                    assert(seq![e1] + seq![e2] =~= seq![e1, e2]);
                    assert(r.1.insert(0, do_symbol) =~= seq![do_symbol] + r.1);
                }
                this.ast.set_root(top);
                Ok(this.ast)
            },
        }
    }
}

/// All arenas of a session, by generation, with the root of each parsed source.
#[derive(Debug)]
pub struct ASTS {
    asts: Vec<Option<AST>>,
    generation: usize,
    source_to_ast: HashMap<usize, SExpId>,
}

impl ASTS {
    /// The arenas, by generation.
    pub closed spec fn arenas(&self) -> Map<nat, AST> {
        Map::new(
            |g: nat| g < self.asts@.len() && self.asts@[g as int] is Some,
            |g: nat| self.asts@[g as int]->Some_0,
        )
    }

    /// The generation the next fresh arena gets.
    pub closed spec fn generation_spec(&self) -> nat {
        self.generation as nat
    }

    /// The root of each parsed source, by the position of its id.
    pub closed spec fn by_source(&self) -> Map<usize, SExpId> {
        self.source_to_ast@
    }

    /// Every parsed source has the arena of its root.
    pub open spec fn wf(&self) -> bool {
        forall|k: usize| #[trigger] self.by_source().contains_key(k) ==> self.arenas().contains_key(self.by_source()[k].gen())
    }

    /// In every arena, each list lists entries of that arena that come before it,
    /// as the parser builds them.
    pub open spec fn ordered(&self) -> bool {
        forall|g: nat| #[trigger] self.arenas().contains_key(g) ==> points_back(self.arenas()[g].node_views(), g)
    }

    /// Whether `id` names an S-expression of one of the arenas.
    pub open spec fn contains(&self, id: SExpId) -> bool {
        self.arenas().contains_key(id.gen()) && self.arenas()[id.gen()].has(id)
    }

    /// No arena yet.
    pub fn new() -> (res: Self)
        ensures
            res.arenas() == Map::<nat, AST>::empty(),
            res.generation_spec() == 0,
            res.by_source() == Map::<usize, SExpId>::empty(),
            res.wf(),
            res.ordered(),
    {
        let res = ASTS { asts: Vec::new(), generation: 0, source_to_ast: HashMap::new() };
        assert(res.arenas() =~= Map::<nat, AST>::empty());
        res
    }

    /// The arena of generation `generation`, to change in place.
    pub fn get_ast_by_generation(&mut self, generation: usize) -> (res: &mut AST)
        requires
            old(self).arenas().contains_key(generation as nat),
        ensures
            *res == old(self).arenas()[generation as nat],
            final(self).arenas() == old(self).arenas().insert(generation as nat, *final(res)),
            final(self).generation_spec() == old(self).generation_spec(),
            final(self).by_source() == old(self).by_source(),
    {
        self.asts[generation].as_mut().unwrap()
    }

    /// The arena that `id` belongs to.
    pub fn get_ast(&self, id: SExpId) -> (res: &AST)
        requires
            self.arenas().contains_key(id.gen()),
        ensures
            *res == self.arenas()[id.gen()],
    {
        self.asts[id.generation()].as_ref().unwrap()
    }

    /// Whether `id` names an S-expression of one of the arenas.
    pub fn holds(&self, id: SExpId) -> (res: bool)
        ensures
            res == self.contains(id),
    {
        let g = id.generation;
        proof {
            assert(id.gen() == g as nat);
            assert(id.index() == id.id as nat);
        }
        if g < self.asts.len() {
            match &self.asts[g] {
                Some(a) => {
                    proof {
                        assert(self.arenas().contains_key(g as nat));
                        assert(a.node_views().len() == a.nodes@.len());
                    }
                    id.id < a.nodes.len() && a.generation == g
                },
                None => false,
            }
        } else {
            false
        }
    }

    /// The S-expression `id` with its span.
    pub fn get(&self, id: SExpId) -> (res: &Spanned<SExp>)
        requires
            self.contains(id),
        ensures
            (res.item@, res.span) == self.arenas()[id.gen()].node_views()[id.index() as int],
    {
        let ast = self.get_ast(id);
        ast.get(id)
    }

    /// The root of the source `source_id`, if it was parsed.
    pub fn get_by_source(&self, source_id: SourceId) -> (res: Option<SExpId>)
        ensures
            res == (if self.by_source().contains_key(source_id.raw_spec()) {
                Some(self.by_source()[source_id.raw_spec()])
            } else {
                None
            }),
    {
        match self.source_to_ast.get(&source_id.raw()) {
            Some(id) => Some(*id),
            None => None,
        }
    }

    /// The S-expression `id` with its span, if an id is given.
    pub fn maybe_get(&self, id: Option<SExpId>) -> (res: Option<&Spanned<SExp>>)
        requires
            id matches Some(i) ==> self.contains(i),
        ensures
            id is None ==> res is None,
            id matches Some(i) ==> res matches Some(r) && (r.item@, r.span)
                == self.arenas()[i.gen()].node_views()[i.index() as int],
    {
        match id {
            Some(i) => Some(self.get(i)),
            None => None,
        }
    }

    /// A fresh arena, kept under its generation, to fill in place.
    pub fn new_ast_mut(&mut self) -> (res: &mut AST)
        requires
            old(self).generation_spec() < usize::MAX,
        ensures
            res.gen() == old(self).generation_spec(),
            res.node_views().len() == 0,
            res.root_spec() is None,
            res.ts_map() == Map::<usize, SExpId>::empty(),
            final(self).arenas() == old(self).arenas().insert(old(self).generation_spec(), *final(res)),
            final(self).generation_spec() == old(self).generation_spec() + 1,
            final(self).by_source() == old(self).by_source(),
    {
        let ast = self.new_ast();
        let id = self.add_ast(ast);
        self.get_ast_by_generation(id)
    }

    /// A fresh arena of the next generation; it is not kept.
    pub fn new_ast(&mut self) -> (res: AST)
        requires
            old(self).generation_spec() < usize::MAX,
        ensures
            res.gen() == old(self).generation_spec(),
            res.node_views().len() == 0,
            res.root_spec() is None,
            res.ts_map() == Map::<usize, SExpId>::empty(),
            final(self).generation_spec() == old(self).generation_spec() + 1,
            final(self).arenas() == old(self).arenas(),
            final(self).by_source() == old(self).by_source(),
    {
        let ast = AST::new(self.generation);
        self.generation = self.generation + 1;
        assert(self.arenas() =~= old(self).arenas());
        ast
    }

    /// Keeps `ast` under its generation, in place of any arena kept there; returns the generation.
    pub fn add_ast(&mut self, ast: AST) -> (res: usize)
        ensures
            res == ast.gen(),
            final(self).arenas() == old(self).arenas().insert(ast.gen(), ast),
            final(self).generation_spec() == old(self).generation_spec(),
            final(self).by_source() == old(self).by_source(),
    {
        let generation = ast.generation();
        while self.asts.len() <= generation
            invariant
                self.arenas() == old(self).arenas(),
                self.generation == old(self).generation,
                self.source_to_ast@ == old(self).source_to_ast@,
            decreases generation + 1 - self.asts@.len(),
        {
            let ghost before = self.arenas();
            self.asts.push(None);
            assert(self.arenas() =~= before);
        }
        let ghost ga = ast;
        self.asts.set(generation, Some(ast));
        assert(self.arenas() =~= old(self).arenas().insert(ga.gen(), ga));
        generation
    }

    /// Parses the source `source_id` from its concrete tree `root` into a fresh
    /// arena, once: a source parsed before gives back the arena it got then.
    pub fn parse(&mut self, source_id: SourceId, root: &CstNode) -> (res: Result<&AST, ParseError>)
        requires
            old(self).wf(),
            !old(self).by_source().contains_key(source_id.raw_spec()) ==> old(self).generation_spec() < usize::MAX,
        ensures
            final(self).wf(),
            old(self).ordered() ==> final(self).ordered(),
            old(self).by_source().contains_key(source_id.raw_spec()) ==> {
                &&& res matches Ok(a) && *a == old(self).arenas()[old(self).by_source()[source_id.raw_spec()].gen()]
                &&& final(self).arenas() == old(self).arenas()
                &&& final(self).by_source() == old(self).by_source()
                &&& final(self).generation_spec() == old(self).generation_spec()
            },
            !old(self).by_source().contains_key(source_id.raw_spec()) ==> {
                &&& final(self).generation_spec() == old(self).generation_spec() + 1
                &&& match emit_source(*root, source_id, old(self).generation_spec(), 0) {
                    Ok(ns) => {
                        let top = SExpId::make((ns.len() - 1) as nat, old(self).generation_spec());
                        &&& res matches Ok(a) && a.gen() == old(self).generation_spec() && a.node_views()
                            == emitted_nodes(ns) && a.ts_map() == record_ts(
                            Map::empty(),
                            ns,
                            0,
                            old(self).generation_spec(),
                        ) && a.root_spec() == Some(top) && final(self).arenas() == old(self).arenas().insert(
                            old(self).generation_spec(),
                            *a,
                        )
                        &&& final(self).by_source() == old(self).by_source().insert(source_id.raw_spec(), top)
                    },
                    Err(e) => {
                        &&& res matches Err(x) && x@ == e
                        &&& final(self).arenas() == old(self).arenas()
                        &&& final(self).by_source() == old(self).by_source()
                    },
                }
            },
    {
        if let Some(root_id) = self.source_to_ast.get(&source_id.raw()) {
            let root_id = *root_id;
            return Ok(self.get_ast(root_id));
        }
        let parser = match SExpParser::new(self, source_id) {
            Ok(p) => p,
            Err(e) => return Err(e),
        };
        let ghost fresh = parser.ast_spec();
        proof {
            assert(fresh.node_views() + Seq::<(SExpView, Span)>::empty() =~= fresh.node_views());
        }
        let ast = match parser.parse_with_tree(root) {
            Ok(a) => a,
            Err(e) => return Err(e),
        };
        proof {
            assert(ast.node_views() =~= emitted_nodes(emit_source(*root, source_id, fresh.gen(), 0)->Ok_0));
        }
        let top = ast.root_id().unwrap();
        let arena_len = ast.nodes().len();
        proof {
            assert(ast.node_views().len() == arena_len);
            let ns = emit_source(*root, source_id, fresh.gen(), 0)->Ok_0;
            lemma_emit_source_back(*root, source_id, fresh.gen(), 0);
            assert(emitted_nodes(ns).len() == ns.len());
            lemma_points_back(ns, fresh.gen());
        }
        self.source_to_ast.insert(source_id.raw(), top);
        self.add_ast(ast);
        proof {
            assert forall|k: usize| #[trigger] self.by_source().contains_key(k) implies self.arenas().contains_key(
                self.by_source()[k].gen(),
            ) by {
                if k != source_id.raw_spec() {
                    assert(old(self).by_source().contains_key(k));
                }
            }
            if old(self).ordered() {
                assert forall|g: nat| #[trigger] self.arenas().contains_key(g) implies points_back(
                    self.arenas()[g].node_views(),
                    g,
                ) by {
                    if g != fresh.gen() {
                        assert(old(self).arenas().contains_key(g));
                    }
                }
            }
        }
        Ok(self.get_ast(top))
    }
}


/// A boolean node of the concrete tree reads as exactly one S-expression, at the
/// node's span and recorded for the node: the boolean that holds exactly when the
/// node's text is `true`, so that `false` (or any other text) reads as false.
pub proof fn law_boolean_node(node: CstNode, src: SourceId, gen: nat, base: nat)
    requires
        node.kind@ == "boolean"@,
        node.text is Ok,
    ensures
        emit(node, src, gen, base) matches Ok(ns) && ns.len() == 1 && ns[0].1 == node_span(node, src)
            && ns[0].2 == Some(node.id) && (ns[0].0 matches SExpView::Bool(b) && (b <==> node.text->Ok_0@
            == "true"@)),
{
    reveal_strlit("boolean");
    reveal_strlit("float");
    reveal_strlit("integer");
    assert(node.kind@ != "float"@ && node.kind@ != "integer"@) by {
        assert(node.kind@[0] != "float"@[0]);
        assert(node.kind@[0] != "integer"@[0]);
    }
}

/// Dropping the leading colons leaves a suffix that does not start with a colon,
/// after only colons.
pub proof fn lemma_trim_colons(s: Seq<char>)
    ensures
        trim_colons(s).len() <= s.len(),
        trim_colons(s) == s.subrange(s.len() - trim_colons(s).len(), s.len() as int),
        forall|i: int| 0 <= i < s.len() - trim_colons(s).len() ==> s[i] == ':',
        trim_colons(s).len() == 0 || trim_colons(s)[0] != ':',
    decreases s.len(),
{
    if s.len() > 0 && s[0] == ':' {
        lemma_trim_colons(s.drop_first());
        let t = trim_colons(s.drop_first());
        assert(s.drop_first().subrange(s.len() - 1 - t.len(), s.len() - 1) =~= s.subrange(s.len() - t.len(), s.len() as int));
        assert forall|i: int| 0 <= i < s.len() - t.len() implies s[i] == ':' by {
            if i > 0 {
                assert(s[i] == s.drop_first()[i - 1]);
            }
        }
    } else {
        assert(s.subrange(0, s.len() as int) =~= s);
    }
}

/// A keyword node reads as the keyword named by its text without the colons it
/// starts with, and a symbol node as the symbol of its text; each as one
/// S-expression at the node's span.
pub proof fn law_name_nodes(node: CstNode, src: SourceId, gen: nat, base: nat)
    requires
        node.kind@ == "keyword"@ || node.kind@ == "symbol"@,
        node.text is Ok,
    ensures
        emit(node, src, gen, base) matches Ok(ns) && ns.len() == 1 && ns[0].1 == node_span(node, src) && ns[0].2
            == Some(node.id),
        node.kind@ == "symbol"@ ==> emit(node, src, gen, base)->Ok_0[0].0 == SExpView::Symbol(node.text->Ok_0@),
        node.kind@ == "keyword"@ ==> (emit(node, src, gen, base)->Ok_0[0].0 matches SExpView::Keyword(k) && (
        k.len() == 0 || k[0] != ':') && node.text->Ok_0@ == Seq::new(
            (node.text->Ok_0@.len() - k.len()) as nat,
            |i: int| ':',
        ) + k),
{
    reveal_strlit("boolean");
    reveal_strlit("float");
    reveal_strlit("integer");
    reveal_strlit("string");
    reveal_strlit("keyword");
    reveal_strlit("symbol");
    let t = node.text->Ok_0@;
    lemma_trim_colons(t);
    let k = trim_colons(t);
    assert(node.kind@ != "float"@ && node.kind@ != "integer"@ && node.kind@ != "boolean"@ && node.kind@
        != "string"@) by {
        assert(node.kind@[0] != "float"@[0]);
        assert(node.kind@[0] != "integer"@[0]);
        assert(node.kind@[0] != "boolean"@[0]);
        if node.kind@ == "string"@ {
            assert(node.kind@.len() == 6);
            assert(node.kind@[1] == 't');
        }
    }
    if node.kind@ == "keyword"@ {
        assert(node.kind@ != "symbol"@) by {
            assert(node.kind@[0] != "symbol"@[0]);
        }
        assert(t =~= Seq::new((t.len() - k.len()) as nat, |i: int| ':') + k);
    } else {
        assert(node.kind@ != "keyword"@) by {
            assert(node.kind@[0] != "keyword"@[0]);
        }
        assert(node.kind@ == "symbol"@);
        assert(emit(node, src, gen, base) == Ok::<Seq<Emitted>, ParseErrorView>(
            seq![(SExpView::Symbol(t), node_span(node, src), Some(node.id))],
        ));
    }
}

/// An id names an S-expression of one arena only: ids of arenas of different
/// generations, such as two arenas that `new_ast` handed out one after the
/// other, never coincide.
pub proof fn law_ids_of_distinct_arenas(a: AST, b: AST, i: SExpId, j: SExpId)
    requires
        a.gen() != b.gen(),
        a.has(i),
        b.has(j),
    ensures
        i != j,
        i.gen() == a.gen(),
        j.gen() == b.gen(),
{
}

/// The id that `add_node` returns names the S-expression just added, in the
/// arena it was added to, and every S-expression added before keeps its id.
pub proof fn law_get_after_add_node(before: AST, after: AST, node: SExpView, span: Span, id: SExpId, earlier: SExpId)
    requires
        after.gen() == before.gen(),
        after.node_views() == before.node_views().push((node, span)),
        id.index() == before.node_views().len(),
        id.gen() == before.gen(),
    ensures
        after.has(id),
        after.node_views()[id.index() as int] == (node, span),
        before.has(earlier) ==> after.has(earlier) && after.node_views()[earlier.index() as int]
            == before.node_views()[earlier.index() as int],
{
}

} // verus!
