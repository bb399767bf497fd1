//! The graph of type nodes: value shapes, use shapes and variables, with the
//! flows between them kept in a reachability index.
use super::reachability::{Reachability, ID};
use crate::source::Span;
use vstd::prelude::*;

verus! {

/// A node of the constraint graph seen as a consumer of values.
#[derive(Clone, Copy, Debug, PartialEq, Eq, Structural)]
pub struct Use(pub ID);

/// A node of the constraint graph seen as a producer of values.
#[derive(Clone, Copy, Debug, PartialEq, Eq, Structural)]
pub struct Value(pub ID);

/// Anything that names a node of the constraint graph.
pub trait WithID {
    fn id(self) -> ID;
}

impl WithID for ID {
    fn id(self) -> (res: ID)
        ensures
            res == self,
    {
        self
    }
}

impl WithID for Use {
    fn id(self) -> (res: ID)
        ensures
            res == self.0,
    {
        self.0
    }
}

impl WithID for Value {
    fn id(self) -> (res: ID)
        ensures
            res == self.0,
    {
        self.0
    }
}

/// The shape of a value that a node produces.
#[derive(Debug)]
pub enum VTypeHead {
    VBool,
    VNumber,
    VString,
    VError,
    VKeyword,
    VTuple { items: Vec<Value> },
    VList { item: Value },
    /// The fields by name, each name once, and the prototype the missing ones are looked up in.
    VStruct { fields: Vec<(String, Value)>, proto: Option<Value> },
    VFunc { pattern: Use, ret: Value },
    VRef { write: Option<Use>, read: Option<Value> },
}

/// The shape of a value that a node expects.
#[derive(Debug)]
#[allow(inconsistent_fields)]
pub enum UTypeHead {
    UBool,
    UNumber,
    UString,
    UError,
    UKeyword,
    /// A tuple where each element might have a different type.
    /// Tuple has a fixed number of elements.
    UTuple { items: Vec<Use> },
    /// Access to a specific element of a tuple.
    UTupleAccess { index: Use },
    UFunc { pattern: Value, ret: Use },
    /// A list where all elements have the same type.
    /// It might have a fixed number of elements but it doesnt have to.
    UList { items: Use, min_len: usize, max_len: Option<usize> },
    /// The fields by name, each name once.
    UStruct { fields: Vec<(String, Use)> },
    UStructAccess { field: (String, Use) },
    /// Application: a call, a field selection or an index, whichever the value allows.
    UApplication { args: Value, ret: Use, field: (Option<String>, Use), index: (Option<usize>, Use) },
    URef { write: Option<Value>, read: Option<Use> },
}

/// The nodes that a value shape refers to, in order.
pub open spec fn vhead_ids(h: VTypeHead) -> Seq<ID> {
    match h {
        VTypeHead::VTuple { items } => items@.map_values(|v: Value| v.0),
        VTypeHead::VList { item } => seq![item.0],
        VTypeHead::VStruct { fields, proto } => fields@.map_values(|p: (String, Value)| p.1.0) + (
        match proto {
            Some(p) => seq![p.0],
            None => Seq::empty(),
        }),
        VTypeHead::VFunc { pattern, ret } => seq![pattern.0, ret.0],
        VTypeHead::VRef { write, read } => (match write {
            Some(w) => seq![w.0],
            None => Seq::empty(),
        }) + (match read {
            Some(r) => seq![r.0],
            None => Seq::empty(),
        }),
        _ => Seq::empty(),
    }
}

/// The nodes that a use shape refers to, in order.
pub open spec fn uhead_ids(h: UTypeHead) -> Seq<ID> {
    match h {
        UTypeHead::UTuple { items } => items@.map_values(|u: Use| u.0),
        UTypeHead::UTupleAccess { index } => seq![index.0],
        UTypeHead::UList { items, .. } => seq![items.0],
        UTypeHead::UStruct { fields } => fields@.map_values(|p: (String, Use)| p.1.0),
        UTypeHead::UStructAccess { field } => seq![field.1.0],
        UTypeHead::UFunc { pattern, ret } => seq![pattern.0, ret.0],
        UTypeHead::UApplication { args, ret, field, index } => seq![args.0, ret.0, field.1.0, index.1.0],
        UTypeHead::URef { write, read } => (match write {
            Some(w) => seq![w.0],
            None => Seq::empty(),
        }) + (match read {
            Some(r) => seq![r.0],
            None => Seq::empty(),
        }),
        _ => Seq::empty(),
    }
}

/// The name of a value shape, as diagnostics show it.
pub open spec fn vhead_name(h: VTypeHead) -> Seq<char> {
    match h {
        VTypeHead::VBool => "bool"@,
        VTypeHead::VNumber => "number"@,
        VTypeHead::VString => "string"@,
        VTypeHead::VError => "error"@,
        VTypeHead::VKeyword => "keyword"@,
        VTypeHead::VTuple { .. } => "tuple"@,
        VTypeHead::VList { .. } => "list"@,
        VTypeHead::VStruct { .. } => "struct"@,
        VTypeHead::VFunc { .. } => "function"@,
        VTypeHead::VRef { .. } => "ref"@,
    }
}

/// The name of a use shape, as diagnostics show it.
pub open spec fn uhead_name(h: UTypeHead) -> Seq<char> {
    match h {
        UTypeHead::UBool => "bool"@,
        UTypeHead::UNumber => "number"@,
        UTypeHead::UError => "error"@,
        UTypeHead::UString => "string"@,
        UTypeHead::UKeyword => "keyword"@,
        UTypeHead::UTuple { .. } => "tuple"@,
        UTypeHead::UTupleAccess { .. } => "tuple_access"@,
        UTypeHead::UList { .. } => "list"@,
        UTypeHead::UFunc { .. } => "function"@,
        UTypeHead::UStruct { .. } => "object"@,
        UTypeHead::UStructAccess { .. } => "object_access"@,
        UTypeHead::UApplication { .. } => "function"@,
        UTypeHead::URef { .. } => "ref"@,
    }
}

impl VTypeHead {
    /// The name of this shape, as diagnostics show it.
    pub fn name(&self) -> (res: &'static str)
        ensures
            res@ == vhead_name(*self),
    {
        match self {
            VTypeHead::VBool => "bool",
            VTypeHead::VNumber => "number",
            VTypeHead::VString => "string",
            VTypeHead::VError => "error",
            VTypeHead::VKeyword => "keyword",
            VTypeHead::VTuple { .. } => "tuple",
            VTypeHead::VList { .. } => "list",
            VTypeHead::VStruct { .. } => "struct",
            VTypeHead::VFunc { .. } => "function",
            VTypeHead::VRef { .. } => "ref",
        }
    }

    /// The nodes this shape refers to, in order.
    pub fn ids(&self) -> (res: Vec<ID>)
        ensures
            res@ == vhead_ids(*self),
    {
        let mut ids: Vec<ID> = Vec::new();
        match self {
            VTypeHead::VTuple { items } => {
                for i in 0..items.len()
                    invariant
                        ids@ == items@.subrange(0, i as int).map_values(|v: Value| v.0),
                {
                    ids.push(items[i].0);
                    assert(ids@ =~= items@.subrange(0, i + 1).map_values(|v: Value| v.0));
                }
                assert(items@.subrange(0, items@.len() as int) =~= items@);
            },
            VTypeHead::VList { item } => {
                ids.push(item.0);
            },
            VTypeHead::VStruct { fields, proto } => {
                for i in 0..fields.len()
                    invariant
                        ids@ == fields@.subrange(0, i as int).map_values(|p: (String, Value)| p.1.0),
                {
                    ids.push(fields[i].1.0);
                    assert(ids@ =~= fields@.subrange(0, i + 1).map_values(
                        |p: (String, Value)| p.1.0,
                    ));
                }
                assert(fields@.subrange(0, fields@.len() as int) =~= fields@);
                if let Some(p) = proto {
                    ids.push(p.0);
                }
            },
            VTypeHead::VFunc { pattern, ret } => {
                ids.push(pattern.0);
                ids.push(ret.0);
            },
            VTypeHead::VRef { write, read } => {
                if let Some(w) = write {
                    ids.push(w.0);
                }
                if let Some(r) = read {
                    ids.push(r.0);
                }
            },
            _ => {},
        }
        assert(ids@ =~= vhead_ids(*self));
        ids
    }
}

impl UTypeHead {
    /// The name of this shape, as diagnostics show it.
    pub fn name(&self) -> (res: &'static str)
        ensures
            res@ == uhead_name(*self),
    {
        match self {
            UTypeHead::UBool => "bool",
            UTypeHead::UNumber => "number",
            UTypeHead::UError => "error",
            UTypeHead::UString => "string",
            UTypeHead::UKeyword => "keyword",
            UTypeHead::UTuple { .. } => "tuple",
            UTypeHead::UTupleAccess { .. } => "tuple_access",
            UTypeHead::UList { .. } => "list",
            UTypeHead::UFunc { .. } => "function",
            UTypeHead::UStruct { .. } => "object",
            UTypeHead::UStructAccess { .. } => "object_access",
            UTypeHead::UApplication { .. } => "function",
            UTypeHead::URef { .. } => "ref",
        }
    }

    /// The nodes this shape refers to, in order.
    pub fn ids(&self) -> (res: Vec<ID>)
        ensures
            res@ == uhead_ids(*self),
    {
        let mut ids: Vec<ID> = Vec::new();
        match self {
            UTypeHead::UTuple { items } => {
                for i in 0..items.len()
                    invariant
                        ids@ == items@.subrange(0, i as int).map_values(|u: Use| u.0),
                {
                    ids.push(items[i].0);
                    assert(ids@ =~= items@.subrange(0, i + 1).map_values(|u: Use| u.0));
                }
                assert(items@.subrange(0, items@.len() as int) =~= items@);
            },
            UTypeHead::UTupleAccess { index } => {
                ids.push(index.0);
            },
            UTypeHead::UList { items, .. } => {
                ids.push(items.0);
            },
            UTypeHead::UStruct { fields } => {
                for i in 0..fields.len()
                    invariant
                        ids@ == fields@.subrange(0, i as int).map_values(|p: (String, Use)| p.1.0),
                {
                    ids.push(fields[i].1.0);
                    assert(ids@ =~= fields@.subrange(0, i + 1).map_values(|p: (String, Use)| p.1.0));
                }
                assert(fields@.subrange(0, fields@.len() as int) =~= fields@);
            },
            UTypeHead::UStructAccess { field } => {
                ids.push(field.1.0);
            },
            UTypeHead::UFunc { pattern, ret } => {
                ids.push(pattern.0);
                ids.push(ret.0);
            },
            UTypeHead::UApplication { args, ret, field, index } => {
                ids.push(args.0);
                ids.push(ret.0);
                ids.push(field.1.0);
                ids.push(index.1.0);
            },
            UTypeHead::URef { write, read } => {
                if let Some(w) = write {
                    ids.push(w.0);
                }
                if let Some(r) = read {
                    ids.push(r.0);
                }
            },
            _ => {},
        }
        assert(ids@ =~= uhead_ids(*self));
        ids
    }
}

/// A node of the constraint graph: a type variable, a value shape or a use shape,
/// with the span of the program it stands for.
#[derive(Debug)]
pub enum TypeNode {
    Var(Span),
    Value(VTypeHead, Span),
    Use(UTypeHead, Span),
}

/// The nodes that a node refers to.
pub open spec fn node_ids(n: TypeNode) -> Seq<ID> {
    match n {
        TypeNode::Var(_) => Seq::empty(),
        TypeNode::Value(h, _) => vhead_ids(h),
        TypeNode::Use(h, _) => uhead_ids(h),
    }
}

/// Every node refers only to nodes below `len`.
pub open spec fn refs_below(types: Seq<TypeNode>, len: nat) -> bool {
    forall|i: int, k: int|
        0 <= i < types.len() && 0 <= k < node_ids(types[i]).len() ==> #[trigger] node_ids(types[i])[k] < len
}

/// A name paired with a node, each name kept once with the last node given for it.
pub open spec fn keep_last<T>(s: Seq<(String, T)>) -> Seq<(String, T)>
    decreases s.len(),
{
    if s.len() == 0 {
        Seq::empty()
    } else {
        let rest = keep_last(s.drop_first());
        if exists|j: int| 1 <= j < s.len() && (#[trigger] s[j]).0@ == s[0].0@ {
            rest
        } else {
            seq![s[0]] + rest
        }
    }
}

proof fn lemma_keep_last_subset<T>(s: Seq<(String, T)>)
    ensures
        forall|k: int| 0 <= k < keep_last(s).len() ==> s.contains(#[trigger] keep_last(s)[k]),
    decreases s.len(),
{
    if s.len() > 0 {
        lemma_keep_last_subset(s.drop_first());
        let rest = keep_last(s.drop_first());
        assert forall|k: int| 0 <= k < keep_last(s).len() implies s.contains(#[trigger] keep_last(s)[k]) by {
            if exists|j: int| 1 <= j < s.len() && (#[trigger] s[j]).0@ == s[0].0@ {
                assert(s.drop_first().contains(rest[k]));
                let m = choose|m: int| 0 <= m < s.drop_first().len() && s.drop_first()[m] == rest[k];
                assert(s[m + 1] == rest[k]);
            } else if k > 0 {
                assert(s.drop_first().contains(rest[k - 1]));
                let m = choose|m: int| 0 <= m < s.drop_first().len() && s.drop_first()[m] == rest[k - 1];
                assert(s[m + 1] == rest[k - 1]);
            } else {
                assert(s[0] == keep_last(s)[0]);
            }
        }
    }
}

/// Keeps one entry per name: the last one given for it.
fn dedup_fields<T: Copy>(fields: Vec<(String, T)>) -> (res: Vec<(String, T)>)
    ensures
        res@ == keep_last(fields@),
{
    let n = fields.len();
    let mut res: Vec<(String, T)> = Vec::new();
    let mut i = n;
    while i > 0
        invariant
            i <= n,
            n == fields@.len(),
            res@ == keep_last(fields@.subrange(i as int, n as int)),
        decreases i,
    {
        i = i - 1;
        let mut later = false;
        let mut j = i + 1;
        while j < n
            invariant
                i < j <= n,
                n == fields@.len(),
                later == exists|m: int| i < m < j && (#[trigger] fields@[m]).0@ == fields@[i as int].0@,
            decreases n - j,
        {
            if fields[j].0.eq(&fields[i].0) {
                later = true;
            }
            j = j + 1;
        }
        let ghost s = fields@.subrange(i as int, n as int);
        proof {
            assert(s.drop_first() =~= fields@.subrange(i + 1, n as int));
            assert(later == exists|m: int| 1 <= m < s.len() && (#[trigger] s[m]).0@ == s[0].0@) by {
                if later {
                    let m = choose|m: int| i < m < n && (#[trigger] fields@[m]).0@ == fields@[i as int].0@;
                    assert(s[m - i] == fields@[m]);
                }
                if exists|m: int| 1 <= m < s.len() && (#[trigger] s[m]).0@ == s[0].0@ {
                    let m = choose|m: int| 1 <= m < s.len() && (#[trigger] s[m]).0@ == s[0].0@;
                    assert(fields@[i + m] == s[m]);
                }
            }
        }
        if !later {
            let name = fields[i].0.clone();
            let v = fields[i].1;
            let mut next: Vec<(String, T)> = Vec::new();
            next.push((name, v));
            let mut k: usize = 0;
            while k < res.len()
                invariant
                    next@.len() == k + 1,
                    next@[0] == (fields@[i as int].0, fields@[i as int].1),
                    forall|m: int| 0 <= m < k ==> next@[m + 1] == res@[m],
                    k <= res@.len(),
                decreases res@.len() - k,
            {
                let e = (res[k].0.clone(), res[k].1);
                next.push(e);
                k = k + 1;
            }
            proof {
                assert(fields@[i as int] == s[0]);
                assert(next@ =~= seq![s[0]] + res@);
            }
            res = next;
        }
    }
    assert(fields@.subrange(0, n as int) =~= fields@);
    res
}

/// The constraint graph: its nodes, and which nodes flow into which.
#[derive(Debug)]
pub struct TypeCheckerCore {
    pub(crate) r: Reachability,
    pub(crate) types: Vec<TypeNode>,
}

impl TypeCheckerCore {
    /// The nodes, by index.
    pub closed spec fn nodes(&self) -> Seq<TypeNode> {
        self.types@
    }

    /// Which nodes flow into which, transitively.
    pub closed spec fn flows(&self) -> Set<(ID, ID)> {
        self.r.edges()
    }

    /// The reachability index over the nodes.
    pub closed spec fn index(&self) -> Reachability {
        self.r
    }

    /// The graph is consistent: one index entry per node, references to existing
    /// nodes only, and the flow relation closed under the rules of the shapes.
    pub closed spec fn wf(&self) -> bool {
        &&& self.r.wf()
        &&& self.r.len() == self.types@.len()
        &&& refs_below(self.types@, self.types@.len() as nat)
        &&& super::flow::closed_under_rules(self.types@, self.r.edges())
    }

    /// A node index of this graph.
    pub open spec fn has(&self, id: ID) -> bool {
        id < self.nodes().len()
    }

    /// What a well-formed graph satisfies.
    pub proof fn lemma_wf(&self)
        requires
            self.wf(),
        ensures
            self.index().wf(),
            self.index().len() == self.nodes().len(),
            self.index().edges() == self.flows(),
            refs_below(self.nodes(), self.nodes().len() as nat),
            super::flow::closed_under_rules(self.nodes(), self.flows()),
    {
    }

    pub(crate) proof fn lemma_reveal(&self)
        ensures
            self.nodes() == self.types@,
            self.flows() == self.r.edges(),
            self.index() == self.r,
            self.wf() == (self.r.wf() && self.r.len() == self.types@.len() && refs_below(
                self.types@,
                self.types@.len() as nat,
            ) && super::flow::closed_under_rules(self.types@, self.r.edges())),
    {
    }

    /// An empty graph.
    pub fn new() -> (res: Self)
        ensures
            res.wf(),
            res.nodes() == Seq::<TypeNode>::empty(),
            res.flows() == Set::<(ID, ID)>::empty(),
    {
        let res = TypeCheckerCore { r: Reachability::new(), types: Vec::new() };
        assert(res.types@ =~= Seq::<TypeNode>::empty());
        res
    }

    fn push_node(&mut self, node: TypeNode) -> (i: ID)
        requires
            old(self).wf(),
            old(self).nodes().len() < usize::MAX,
            forall|k: int| 0 <= k < node_ids(node).len() ==> #[trigger] node_ids(node)[k] < old(self).nodes().len(),
        ensures
            final(self).wf(),
            final(self).nodes() == old(self).nodes().push(node),
            final(self).flows() == old(self).flows(),
            i == old(self).nodes().len(),
    {
        let i = self.r.add_node();
        self.types.push(node);
        proof {
            let n = self.types@.len();
            assert forall|j: int, k: int|
                0 <= j < n && 0 <= k < node_ids(self.types@[j]).len() implies #[trigger] node_ids(self.types@[j])[k] < n by {
                if j < n - 1 {
                    assert(self.types@[j] == old(self).types@[j]);
                }
            }
            old(self).r.lemma_wf();
            super::flow::lemma_closed_extend(old(self).types@, node, self.r.edges());
        }
        i
    }

    fn new_val(&mut self, val_type: VTypeHead, span: Span) -> (res: Value)
        requires
            old(self).wf(),
            old(self).nodes().len() < usize::MAX,
            forall|k: int| 0 <= k < vhead_ids(val_type).len() ==> #[trigger] vhead_ids(val_type)[k] < old(self).nodes().len(),
        ensures
            final(self).wf(),
            final(self).nodes() == old(self).nodes().push(TypeNode::Value(val_type, span)),
            final(self).flows() == old(self).flows(),
            res.0 == old(self).nodes().len(),
    {
        Value(self.push_node(TypeNode::Value(val_type, span)))
    }

    fn new_use(&mut self, constraint: UTypeHead, span: Span) -> (res: Use)
        requires
            old(self).wf(),
            old(self).nodes().len() < usize::MAX,
            forall|k: int| 0 <= k < uhead_ids(constraint).len() ==> #[trigger] uhead_ids(constraint)[k] < old(self).nodes().len(),
        ensures
            final(self).wf(),
            final(self).nodes() == old(self).nodes().push(TypeNode::Use(constraint, span)),
            final(self).flows() == old(self).flows(),
            res.0 == old(self).nodes().len(),
    {
        Use(self.push_node(TypeNode::Use(constraint, span)))
    }

    /// The node `id`.
    pub fn get(&self, id: ID) -> (res: &TypeNode)
        requires
            self.has(id),
        ensures
            *res == self.nodes()[id as int],
    {
        &self.types[id]
    }

    /// The number of nodes.
    pub fn len(&self) -> (res: usize)
        ensures
            res == self.nodes().len(),
    {
        self.types.len()
    }

    /// The reachability index over the nodes.
    pub fn reachability(&self) -> (res: &Reachability)
        ensures
            *res == self.index(),
    {
        &self.r
    }

    /// The nodes that flow into `id`, each with its index, in the order they were linked.
    pub fn predecessors(&self, id: ID) -> (res: Vec<(&TypeNode, ID)>)
        requires
            self.wf(),
            self.has(id),
        ensures
            res@.len() == self.index().pred_seq(id).len(),
            forall|k: int|
                0 <= k < res@.len() ==> (#[trigger] res@[k]).1 == self.index().pred_seq(id)[k] && *res@[k].0
                    == self.nodes()[res@[k].1 as int],
    {
        proof {
            self.r.lemma_wf();
        }
        let preds = self.r.predecessors(id);
        let mut res: Vec<(&TypeNode, ID)> = Vec::new();
        for k in 0..preds.len()
            invariant
                self.wf(),
                self.has(id),
                preds@ == self.index().pred_seq(id),
                res@.len() == k,
                forall|m: int|
                    0 <= m < k ==> (#[trigger] res@[m]).1 == preds@[m] && *res@[m].0 == self.nodes()[res@[m].1 as int],
        {
            proof {
                self.r.lemma_wf();
                assert(self.index().pred_seq(id).contains(preds@[k as int]));
            }
            let p = preds[k];
            res.push((&self.types[p], p));
        }
        res
    }

    /// The nodes that `id` flows into, each with its index, in the order they were linked.
    pub fn successors(&self, id: ID) -> (res: Vec<(&TypeNode, ID)>)
        requires
            self.wf(),
            self.has(id),
        ensures
            res@.len() == self.index().succ_seq(id).len(),
            forall|k: int|
                0 <= k < res@.len() ==> (#[trigger] res@[k]).1 == self.index().succ_seq(id)[k] && *res@[k].0
                    == self.nodes()[res@[k].1 as int],
    {
        proof {
            self.r.lemma_wf();
        }
        let succs = self.r.successors(id);
        let mut res: Vec<(&TypeNode, ID)> = Vec::new();
        for k in 0..succs.len()
            invariant
                self.wf(),
                self.has(id),
                succs@ == self.index().succ_seq(id),
                res@.len() == k,
                forall|m: int|
                    0 <= m < k ==> (#[trigger] res@[m]).1 == succs@[m] && *res@[m].0 == self.nodes()[res@[m].1 as int],
        {
            proof {
                self.r.lemma_wf();
                assert(self.index().succ_seq(id).contains(succs@[k as int]));
            }
            let p = succs[k];
            res.push((&self.types[p], p));
        }
        res
    }

    /// The nodes linked to `id`: those that flow into it, then those it flows into.
    pub fn all_linked(&self, id: ID) -> (res: Vec<&TypeNode>)
        requires
            self.wf(),
            self.has(id),
        ensures
            res@.len() == self.index().pred_seq(id).len() + self.index().succ_seq(id).len(),
            forall|k: int|
                0 <= k < res@.len() ==> *(#[trigger] res@[k]) == self.nodes()[(self.index().pred_seq(id)
                    + self.index().succ_seq(id))[k] as int],
    {
        proof {
            self.r.lemma_wf();
        }
        let linked = self.r.all_linked(id);
        let mut res: Vec<&TypeNode> = Vec::new();
        for k in 0..linked.len()
            invariant
                self.wf(),
                self.has(id),
                linked@ == self.index().pred_seq(id) + self.index().succ_seq(id),
                res@.len() == k,
                forall|m: int| 0 <= m < k ==> *(#[trigger] res@[m]) == self.nodes()[linked@[m] as int],
        {
            proof {
                self.r.lemma_wf();
                let q = linked@[k as int];
                if (k as int) < self.index().pred_seq(id).len() {
                    assert(self.index().pred_seq(id)[k as int] == q);
                    assert(self.index().pred_seq(id).contains(q));
                } else {
                    assert(self.index().succ_seq(id)[k - self.index().pred_seq(id).len()] == q);
                    assert(self.index().succ_seq(id).contains(q));
                }
            }
            let p = linked[k];
            res.push(&self.types[p]);
        }
        res
    }

    /// Every node with its index, in order.
    pub fn iter(&self) -> (res: Vec<(ID, &TypeNode)>)
        ensures
            res@.len() == self.nodes().len(),
            forall|k: int| 0 <= k < res@.len() ==> (#[trigger] res@[k]).0 == k && *res@[k].1 == self.nodes()[k],
    {
        let mut res: Vec<(ID, &TypeNode)> = Vec::new();
        for k in 0..self.types.len()
            invariant
                res@.len() == k,
                forall|m: int| 0 <= m < k ==> (#[trigger] res@[m]).0 == m && *res@[m].1 == self.nodes()[m],
        {
            res.push((k, &self.types[k]));
        }
        res
    }

    /// A fresh type variable, as a producer and as a consumer.
    pub fn var(&mut self, span: Span) -> (res: (Value, Use))
        requires
            old(self).wf(),
            old(self).nodes().len() < usize::MAX,
        ensures
            final(self).wf(),
            final(self).nodes() == old(self).nodes().push(TypeNode::Var(span)),
            final(self).flows() == old(self).flows(),
            res.0.0 == old(self).nodes().len(),
            res.1.0 == old(self).nodes().len(),
    {
        let i = self.push_node(TypeNode::Var(span));
        (Value(i), Use(i))
    }

    /// A boolean value.
    pub fn bool(&mut self, span: Span) -> (res: Value)
        requires
            old(self).wf(),
            old(self).nodes().len() < usize::MAX,
        ensures
            final(self).wf(),
            final(self).nodes() == old(self).nodes().push(TypeNode::Value(VTypeHead::VBool, span)),
            final(self).flows() == old(self).flows(),
            res.0 == old(self).nodes().len(),
    {
        self.new_val(VTypeHead::VBool, span)
    }

    /// A use that expects a boolean.
    pub fn bool_use(&mut self, span: Span) -> (res: Use)
        requires
            old(self).wf(),
            old(self).nodes().len() < usize::MAX,
        ensures
            final(self).wf(),
            final(self).nodes() == old(self).nodes().push(TypeNode::Use(UTypeHead::UBool, span)),
            final(self).flows() == old(self).flows(),
            res.0 == old(self).nodes().len(),
    {
        self.new_use(UTypeHead::UBool, span)
    }

    /// A keyword value.
    pub fn keyword(&mut self, span: Span) -> (res: Value)
        requires
            old(self).wf(),
            old(self).nodes().len() < usize::MAX,
        ensures
            final(self).wf(),
            final(self).nodes() == old(self).nodes().push(TypeNode::Value(VTypeHead::VKeyword, span)),
            final(self).flows() == old(self).flows(),
            res.0 == old(self).nodes().len(),
    {
        self.new_val(VTypeHead::VKeyword, span)
    }

    /// A use that expects a keyword.
    pub fn keyword_use(&mut self, span: Span) -> (res: Use)
        requires
            old(self).wf(),
            old(self).nodes().len() < usize::MAX,
        ensures
            final(self).wf(),
            final(self).nodes() == old(self).nodes().push(TypeNode::Use(UTypeHead::UKeyword, span)),
            final(self).flows() == old(self).flows(),
            res.0 == old(self).nodes().len(),
    {
        self.new_use(UTypeHead::UKeyword, span)
    }

    /// A string value.
    pub fn string(&mut self, span: Span) -> (res: Value)
        requires
            old(self).wf(),
            old(self).nodes().len() < usize::MAX,
        ensures
            final(self).wf(),
            final(self).nodes() == old(self).nodes().push(TypeNode::Value(VTypeHead::VString, span)),
            final(self).flows() == old(self).flows(),
            res.0 == old(self).nodes().len(),
    {
        self.new_val(VTypeHead::VString, span)
    }

    /// A use that expects a string.
    pub fn string_use(&mut self, span: Span) -> (res: Use)
        requires
            old(self).wf(),
            old(self).nodes().len() < usize::MAX,
        ensures
            final(self).wf(),
            final(self).nodes() == old(self).nodes().push(TypeNode::Use(UTypeHead::UString, span)),
            final(self).flows() == old(self).flows(),
            res.0 == old(self).nodes().len(),
    {
        self.new_use(UTypeHead::UString, span)
    }

    /// A number value.
    pub fn number(&mut self, span: Span) -> (res: Value)
        requires
            old(self).wf(),
            old(self).nodes().len() < usize::MAX,
        ensures
            final(self).wf(),
            final(self).nodes() == old(self).nodes().push(TypeNode::Value(VTypeHead::VNumber, span)),
            final(self).flows() == old(self).flows(),
            res.0 == old(self).nodes().len(),
    {
        self.new_val(VTypeHead::VNumber, span)
    }

    /// A use that expects a number.
    pub fn number_use(&mut self, span: Span) -> (res: Use)
        requires
            old(self).wf(),
            old(self).nodes().len() < usize::MAX,
        ensures
            final(self).wf(),
            final(self).nodes() == old(self).nodes().push(TypeNode::Use(UTypeHead::UNumber, span)),
            final(self).flows() == old(self).flows(),
            res.0 == old(self).nodes().len(),
    {
        self.new_use(UTypeHead::UNumber, span)
    }

    /// The error value, compatible with every use.
    pub fn error(&mut self, span: Span) -> (res: Value)
        requires
            old(self).wf(),
            old(self).nodes().len() < usize::MAX,
        ensures
            final(self).wf(),
            final(self).nodes() == old(self).nodes().push(TypeNode::Value(VTypeHead::VError, span)),
            final(self).flows() == old(self).flows(),
            res.0 == old(self).nodes().len(),
    {
        self.new_val(VTypeHead::VError, span)
    }

    /// The error use, compatible with every value.
    pub fn error_use(&mut self, span: Span) -> (res: Use)
        requires
            old(self).wf(),
            old(self).nodes().len() < usize::MAX,
        ensures
            final(self).wf(),
            final(self).nodes() == old(self).nodes().push(TypeNode::Use(UTypeHead::UError, span)),
            final(self).flows() == old(self).flows(),
            res.0 == old(self).nodes().len(),
    {
        self.new_use(UTypeHead::UError, span)
    }

    /// A function value.
    pub fn func(&mut self, pattern: Use, ret: Value, span: Span) -> (res: Value)
        requires
            old(self).wf(),
            old(self).nodes().len() < usize::MAX,
            old(self).has(pattern.0),
            old(self).has(ret.0),
        ensures
            final(self).wf(),
            final(self).nodes() == old(self).nodes().push(
                TypeNode::Value(VTypeHead::VFunc { pattern, ret }, span),
            ),
            final(self).flows() == old(self).flows(),
            res.0 == old(self).nodes().len(),
    {
        self.new_val(VTypeHead::VFunc { pattern, ret }, span)
    }

    /// A use that calls a function.
    pub fn func_use(&mut self, pattern: Value, ret: Use, span: Span) -> (res: Use)
        requires
            old(self).wf(),
            old(self).nodes().len() < usize::MAX,
            old(self).has(pattern.0),
            old(self).has(ret.0),
        ensures
            final(self).wf(),
            final(self).nodes() == old(self).nodes().push(
                TypeNode::Use(UTypeHead::UFunc { pattern, ret }, span),
            ),
            final(self).flows() == old(self).flows(),
            res.0 == old(self).nodes().len(),
    {
        self.new_use(UTypeHead::UFunc { pattern, ret }, span)
    }

    /// A list value.
    pub fn list(&mut self, item: Value, span: Span) -> (res: Value)
        requires
            old(self).wf(),
            old(self).nodes().len() < usize::MAX,
            old(self).has(item.0),
        ensures
            final(self).wf(),
            final(self).nodes() == old(self).nodes().push(TypeNode::Value(VTypeHead::VList { item }, span)),
            final(self).flows() == old(self).flows(),
            res.0 == old(self).nodes().len(),
    {
        self.new_val(VTypeHead::VList { item }, span)
    }

    /// A tuple value.
    pub fn tuple(&mut self, items: Vec<Value>, span: Span) -> (res: Value)
        requires
            old(self).wf(),
            old(self).nodes().len() < usize::MAX,
            forall|k: int| 0 <= k < items@.len() ==> old(self).has(#[trigger] items@[k].0),
        ensures
            final(self).wf(),
            final(self).nodes() == old(self).nodes().push(TypeNode::Value(VTypeHead::VTuple { items }, span)),
            final(self).flows() == old(self).flows(),
            res.0 == old(self).nodes().len(),
    {
        self.new_val(VTypeHead::VTuple { items }, span)
    }

    /// A use that expects a tuple with exactly these items.
    pub fn tuple_use(&mut self, items: Vec<Use>, span: Span) -> (res: Use)
        requires
            old(self).wf(),
            old(self).nodes().len() < usize::MAX,
            forall|k: int| 0 <= k < items@.len() ==> old(self).has(#[trigger] items@[k].0),
        ensures
            final(self).wf(),
            final(self).nodes() == old(self).nodes().push(TypeNode::Use(UTypeHead::UTuple { items }, span)),
            final(self).flows() == old(self).flows(),
            res.0 == old(self).nodes().len(),
    {
        self.new_use(UTypeHead::UTuple { items }, span)
    }

    /// A use that reads one element of a tuple.
    pub fn tuple_access_use(&mut self, index: Use, span: Span) -> (res: Use)
        requires
            old(self).wf(),
            old(self).nodes().len() < usize::MAX,
            old(self).has(index.0),
        ensures
            final(self).wf(),
            final(self).nodes() == old(self).nodes().push(
                TypeNode::Use(UTypeHead::UTupleAccess { index }, span),
            ),
            final(self).flows() == old(self).flows(),
            res.0 == old(self).nodes().len(),
    {
        self.new_use(UTypeHead::UTupleAccess { index }, span)
    }

    /// A use that expects a list of `min_len` elements or more, and at most `max_len` where given.
    pub fn list_use(&mut self, items: Use, min_len: usize, max_len: Option<usize>, span: Span) -> (res: Use)
        requires
            old(self).wf(),
            old(self).nodes().len() < usize::MAX,
            old(self).has(items.0),
        ensures
            final(self).wf(),
            final(self).nodes() == old(self).nodes().push(
                TypeNode::Use(UTypeHead::UList { items, min_len, max_len }, span),
            ),
            final(self).flows() == old(self).flows(),
            res.0 == old(self).nodes().len(),
    {
        self.new_use(UTypeHead::UList { items, min_len, max_len }, span)
    }

    /// A use that applies arguments: the arguments become a tuple node, then the use node.
    pub fn application_use(
        &mut self,
        args: Vec<Value>,
        ret: Use,
        field: (Option<String>, Use),
        index: (Option<usize>, Use),
        args_span: Span,
        span: Span,
    ) -> (res: Use)
        requires
            old(self).wf(),
            old(self).nodes().len() + 1 < usize::MAX,
            forall|k: int| 0 <= k < args@.len() ==> old(self).has(#[trigger] args@[k].0),
            old(self).has(ret.0),
            old(self).has(field.1.0),
            old(self).has(index.1.0),
        ensures
            final(self).wf(),
            final(self).nodes() == old(self).nodes().push(
                TypeNode::Value(VTypeHead::VTuple { items: args }, args_span),
            ).push(
                TypeNode::Use(
                    UTypeHead::UApplication {
                        args: Value(old(self).nodes().len() as ID),
                        ret,
                        field,
                        index,
                    },
                    span,
                ),
            ),
            final(self).flows() == old(self).flows(),
            res.0 == old(self).nodes().len() + 1,
    {
        let args = self.tuple(args, args_span);
        self.new_use(UTypeHead::UApplication { args, ret, field, index }, span)
    }

    /// A record value with these fields, each name kept once with its last node,
    /// and an optional prototype.
    pub fn obj(&mut self, fields: Vec<(String, Value)>, proto: Option<Value>, span: Span) -> (res: Value)
        requires
            old(self).wf(),
            old(self).nodes().len() < usize::MAX,
            forall|k: int| 0 <= k < fields@.len() ==> old(self).has(#[trigger] fields@[k].1.0),
            proto matches Some(p) ==> old(self).has(p.0),
        ensures
            final(self).wf(),
            final(self).nodes().len() == old(self).nodes().len() + 1,
            final(self).nodes().subrange(0, old(self).nodes().len() as int) == old(self).nodes(),
            final(self).nodes()[old(self).nodes().len() as int] matches TypeNode::Value(
                VTypeHead::VStruct { fields: f, proto: p },
                s,
            ) && f@ == keep_last(fields@) && p == proto && s == span,
            final(self).flows() == old(self).flows(),
            res.0 == old(self).nodes().len(),
    {
        proof {
            lemma_keep_last_subset(fields@);
        }
        let ghost input = fields@;
        let kept = dedup_fields(fields);
        let ghost before = self.nodes();
        let h = VTypeHead::VStruct { fields: kept, proto };
        proof {
            assert forall|k: int| 0 <= k < vhead_ids(h).len() implies #[trigger] vhead_ids(h)[k] < before.len() by {
                if k < kept@.len() {
                    assert(input.contains(kept@[k]));
                }
            }
        }
        let res = self.new_val(h, span);
        proof {
            assert(self.nodes().subrange(0, before.len() as int) =~= before);
        }
        res
    }

    /// A use that expects a record with these fields, each name kept once with its last node.
    pub fn obj_use(&mut self, fields: Vec<(String, Use)>, span: Span) -> (res: Use)
        requires
            old(self).wf(),
            old(self).nodes().len() < usize::MAX,
            forall|k: int| 0 <= k < fields@.len() ==> old(self).has(#[trigger] fields@[k].1.0),
        ensures
            final(self).wf(),
            final(self).nodes().len() == old(self).nodes().len() + 1,
            final(self).nodes().subrange(0, old(self).nodes().len() as int) == old(self).nodes(),
            final(self).nodes()[old(self).nodes().len() as int] matches TypeNode::Use(
                UTypeHead::UStruct { fields: f },
                s,
            ) && f@ == keep_last(fields@) && s == span,
            final(self).flows() == old(self).flows(),
            res.0 == old(self).nodes().len(),
    {
        proof {
            lemma_keep_last_subset(fields@);
        }
        let ghost input = fields@;
        let kept = dedup_fields(fields);
        let ghost before = self.nodes();
        let h = UTypeHead::UStruct { fields: kept };
        proof {
            assert forall|k: int| 0 <= k < uhead_ids(h).len() implies #[trigger] uhead_ids(h)[k] < before.len() by {
                assert(input.contains(kept@[k]));
            }
        }
        let res = self.new_use(h, span);
        proof {
            assert(self.nodes().subrange(0, before.len() as int) =~= before);
        }
        res
    }

    /// A use that reads one field of a record.
    pub fn obj_field_access_use(&mut self, field: (String, Use), span: Span) -> (res: Use)
        requires
            old(self).wf(),
            old(self).nodes().len() < usize::MAX,
            old(self).has(field.1.0),
        ensures
            final(self).wf(),
            final(self).nodes() == old(self).nodes().push(
                TypeNode::Use(UTypeHead::UStructAccess { field }, span),
            ),
            final(self).flows() == old(self).flows(),
            res.0 == old(self).nodes().len(),
    {
        self.new_use(UTypeHead::UStructAccess { field }, span)
    }

    /// A reference value that can be written through `write` and read as `read`.
    pub fn reference(&mut self, write: Option<Use>, read: Option<Value>, span: Span) -> (res: Value)
        requires
            old(self).wf(),
            old(self).nodes().len() < usize::MAX,
            write matches Some(w) ==> old(self).has(w.0),
            read matches Some(r) ==> old(self).has(r.0),
        ensures
            final(self).wf(),
            final(self).nodes() == old(self).nodes().push(
                TypeNode::Value(VTypeHead::VRef { write, read }, span),
            ),
            final(self).flows() == old(self).flows(),
            res.0 == old(self).nodes().len(),
    {
        self.new_val(VTypeHead::VRef { write, read }, span)
    }

    /// A use that writes `write` into a reference and reads it as `read`.
    pub fn reference_use(&mut self, write: Option<Value>, read: Option<Use>, span: Span) -> (res: Use)
        requires
            old(self).wf(),
            old(self).nodes().len() < usize::MAX,
            write matches Some(w) ==> old(self).has(w.0),
            read matches Some(r) ==> old(self).has(r.0),
        ensures
            final(self).wf(),
            final(self).nodes() == old(self).nodes().push(
                TypeNode::Use(UTypeHead::URef { write, read }, span),
            ),
            final(self).flows() == old(self).flows(),
            res.0 == old(self).nodes().len(),
    {
        self.new_use(UTypeHead::URef { write, read }, span)
    }
}

} // verus!
