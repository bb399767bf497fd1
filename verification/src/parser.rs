//! A plain S-expression reader: a source file holds one symbol or one list of
//! symbols and lists.
use crate::ast::CstNode;
use crate::text::concat2;
use vstd::prelude::*;

verus! {

/// A symbol or a list of S-expressions.
#[derive(Debug)]
pub enum SExp {
    Symbol(String),
    List(Vec<SExp>),
}

/// An S-expression as plain values.
pub enum SExpTree {
    Symbol(Seq<char>),
    List(Seq<SExpTree>),
}

/// The plain value of an S-expression.
pub open spec fn tree_of(e: SExp) -> SExpTree
    decreases e, 1nat,
{
    match e {
        SExp::Symbol(s) => SExpTree::Symbol(s@),
        SExp::List(items) => SExpTree::List(trees_of(items@)),
    }
}

/// The plain values of a sequence of S-expressions.
pub open spec fn trees_of(items: Seq<SExp>) -> Seq<SExpTree>
    decreases items, 0nat,
{
    if items.len() == 0 {
        Seq::empty()
    } else {
        trees_of(items.drop_last()).push(tree_of(items.last()))
    }
}

/// There is one plain value for each S-expression.
proof fn lemma_trees_of_len(items: Seq<SExp>)
    ensures
        trees_of(items).len() == items.len(),
    decreases items.len(),
{
    if items.len() > 0 {
        lemma_trees_of_len(items.drop_last());
    }
}

/// The text of an S-expression: a symbol as it is, a list as its items between
/// round brackets, one space between two items.
pub open spec fn show(e: SExpTree) -> Seq<char>
    decreases e, 1nat,
{
    match e {
        SExpTree::Symbol(s) => s,
        SExpTree::List(items) => "("@ + show_items(items) + ")"@,
    }
}

/// The texts of `items`, one space between two of them.
pub open spec fn show_items(items: Seq<SExpTree>) -> Seq<char>
    decreases items, 0nat,
{
    if items.len() == 0 {
        Seq::empty()
    } else if items.len() == 1 {
        show(items[0])
    } else {
        show_items(items.drop_last()) + " "@ + show(items.last())
    }
}

/// Why a text could not be read.
#[derive(Debug)]
pub enum ParseError {
    TreeSitterError(String),
    UnexpectedNode(String),
}

/// A read error as plain values: whether the concrete parser failed, and the message.
pub open spec fn error_view(e: ParseError) -> (bool, Seq<char>) {
    match e {
        ParseError::TreeSitterError(m) => (true, m@),
        ParseError::UnexpectedNode(m) => (false, m@),
    }
}

/// The S-expression a concrete node reads as: a symbol as its text, a list as
/// its named children, read in order.
pub open spec fn read(node: CstNode) -> Result<SExpTree, (bool, Seq<char>)>
    decreases node, 1nat,
{
    if node.kind@ == "symbol"@ {
        match node.text {
            Ok(t) => Ok(SExpTree::Symbol(t@)),
            Err(e) => Err((true, e@)),
        }
    } else if node.kind@ == "list"@ {
        match read_named(node.children@) {
            Ok(items) => Ok(SExpTree::List(items)),
            Err(e) => Err(e),
        }
    } else {
        Err((false, "Unexpected node kind: "@ + node.kind@))
    }
}

/// The named nodes of `cs`, read in order; the first error stops the reading.
pub open spec fn read_named(cs: Seq<CstNode>) -> Result<Seq<SExpTree>, (bool, Seq<char>)>
    decreases cs, 0nat,
{
    if cs.len() == 0 {
        Ok(Seq::empty())
    } else {
        match read_named(cs.drop_last()) {
            Err(e) => Err(e),
            Ok(items) => if !cs.last().is_named {
                Ok(items)
            } else {
                match read(cs.last()) {
                    Err(e) => Err(e),
                    Ok(t) => Ok(items.push(t)),
                }
            },
        }
    }
}

/// What a whole source file reads as: its first child, which must be a symbol or a list.
pub open spec fn read_source(root: CstNode) -> Result<SExpTree, (bool, Seq<char>)> {
    if root.kind@ != "source_file"@ {
        Err((false, "Expected source_file, got "@ + root.kind@))
    } else if root.children@.len() == 0 {
        Err((false, "Empty source file"@))
    } else {
        let first = root.children@[0];
        if first.kind@ == "symbol"@ || first.kind@ == "list"@ {
            read(first)
        } else {
            Err((false, "Expected symbol or list, got "@ + first.kind@))
        }
    }
}

/// Once a prefix of the nodes fails, all of them fail the same way.
proof fn lemma_read_named_err(cs: Seq<CstNode>, i: int)
    requires
        0 <= i <= cs.len(),
        read_named(cs.take(i)) is Err,
    ensures
        read_named(cs) == read_named(cs.take(i)),
    decreases cs.len(),
{
    if cs.len() == i {
        assert(cs.take(i) =~= cs);
    } else {
        assert(cs.drop_last().take(i) =~= cs.take(i));
        lemma_read_named_err(cs.drop_last(), i);
    }
}

/// Whether `kind` is the text `lit`.
fn kind_is(kind: &String, lit: &str) -> (res: bool)
    ensures
        res == (kind@ == lit@),
{
    kind.eq(&String::from_str(lit))
}

/// The S-expression `node` reads as.
pub fn node_to_sexp(node: &CstNode) -> (res: Result<SExp, ParseError>)
    ensures
        match read(*node) {
            Ok(t) => res matches Ok(e) && tree_of(e) == t,
            Err(m) => res matches Err(e) && error_view(e) == m,
        },
    decreases node, 1nat,
{
    if kind_is(&node.kind, "symbol") {
        match &node.text {
            Ok(t) => Ok(SExp::Symbol(t.clone())),
            Err(e) => Err(ParseError::TreeSitterError(e.clone())),
        }
    } else if kind_is(&node.kind, "list") {
        match children_to_sexps(node) {
            Ok(items) => {
                let ghost v = items@;
                let res = SExp::List(items);
                assert(tree_of(res) == SExpTree::List(trees_of(v)));
                Ok(res)
            },
            Err(e) => Err(e),
        }
    } else {
        Err(ParseError::UnexpectedNode(concat2("Unexpected node kind: ", node.kind.as_str())))
    }
}

/// The named children of `node`, read in order.
fn children_to_sexps(node: &CstNode) -> (res: Result<Vec<SExp>, ParseError>)
    ensures
        match read_named(node.children@) {
            Ok(ts) => res matches Ok(v) && trees_of(v@) == ts,
            Err(m) => res matches Err(e) && error_view(e) == m,
        },
    decreases node, 0nat,
{
    let mut items: Vec<SExp> = Vec::new();
    let n = node.children.len();
    let mut i: usize = 0;
    assert(node.children@.take(0) =~= Seq::<CstNode>::empty());
    while i < n
        invariant
            i <= n,
            n == node.children@.len(),
            read_named(node.children@.take(i as int)) matches Ok(ts) && trees_of(items@) == ts,
        decreases n - i,
    {
        let c = &node.children[i];
        proof {
            assert(node.children@.take(i + 1).drop_last() =~= node.children@.take(i as int));
            assert(decreases_to!(node.children => node.children@));
        }
        if c.is_named {
            match node_to_sexp(c) {
                Ok(e) => {
                    let ghost before = items@;
                    items.push(e);
                    assert(items@.drop_last() =~= before);
                },
                Err(e) => {
                    proof { lemma_read_named_err(node.children@, i + 1); }
                    return Err(e);
                },
            }
        }
        i = i + 1;
    }
    assert(node.children@.take(n as int) =~= node.children@);
    Ok(items)
}

/// The S-expression a whole source file reads as, from its concrete tree.
pub fn parse_tree(root: &CstNode) -> (res: Result<SExp, ParseError>)
    ensures
        match read_source(*root) {
            Ok(t) => res matches Ok(e) && tree_of(e) == t,
            Err(m) => res matches Err(e) && error_view(e) == m,
        },
{
    if !kind_is(&root.kind, "source_file") {
        return Err(ParseError::UnexpectedNode(concat2("Expected source_file, got ", root.kind.as_str())));
    }
    if root.children.len() == 0 {
        return Err(ParseError::UnexpectedNode(String::from_str("Empty source file")));
    }
    let first = &root.children[0];
    if kind_is(&first.kind, "symbol") || kind_is(&first.kind, "list") {
        node_to_sexp(first)
    } else {
        Err(ParseError::UnexpectedNode(concat2("Expected symbol or list, got ", first.kind.as_str())))
    }
}

impl SExp {
    /// The text of this S-expression, as it is displayed.
    pub fn to_string(&self) -> (res: String)
        ensures
            res@ == show(tree_of(*self)),
        decreases self, 1nat,
    {
        match self {
            SExp::Symbol(s) => s.clone(),
            SExp::List(items) => {
                let mut out = String::from_str("(");
                let inner = Self::items_to_string(items);
                out.append(inner.as_str());
                out.append(")");
                proof {
                    reveal_strlit("(");
                    reveal_strlit(")");
                }
                out
            },
        }
    }

    /// The texts of `items`, one space between two of them.
    fn items_to_string(items: &Vec<SExp>) -> (res: String)
        ensures
            res@ == show_items(trees_of(items@)),
        decreases items, 0nat,
    {
        let mut out = String::new();
        let n = items.len();
        let mut i: usize = 0;
        assert(items@.take(0) =~= Seq::<SExp>::empty());
        while i < n
            invariant
                i <= n,
                n == items@.len(),
                out@ == show_items(trees_of(items@.take(i as int))),
            decreases n - i,
        {
            let ghost pre = trees_of(items@.take(i as int));
            proof {
                assert(items@.take(i + 1).drop_last() =~= items@.take(i as int));
                assert(decreases_to!(items => items@));
                lemma_trees_of_len(items@.take(i as int));
                assert(trees_of(items@.take(i + 1)) == pre.push(tree_of(items@[i as int])));
                assert(pre.push(tree_of(items@[i as int])).drop_last() =~= pre);
            }
            let s = items[i].to_string();
            if i > 0 {
                out.append(" ");
            }
            out.append(s.as_str());
            i = i + 1;
        }
        assert(items@.take(n as int) =~= items@);
        out
    }
}

} // verus!
