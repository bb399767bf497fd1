//! Flowing values into uses: the subtyping rules, and the propagation that
//! closes the flow relation under them.
use super::checker::{
    node_ids, refs_below, uhead_ids, uhead_name, vhead_ids, vhead_name, TypeCheckerCore, TypeNode, UTypeHead, Use, VTypeHead, Value,
};
use super::reachability::{
    closure_with, lemma_closure_with_transitive, lemma_link_result, link_result, link_run, transitive, ID, LinkState,
};
use crate::diagnostics::{DiagView, Diagnostics};
use crate::source::Span;
use crate::text::{concat2, decimal, push_decimal};
use vstd::prelude::*;

verus! {

/// The node given for `name`: the last entry with that name.
pub open spec fn find_field<T>(fields: Seq<(String, T)>, name: Seq<char>) -> Option<T>
    decreases fields.len(),
{
    if fields.len() == 0 {
        None
    } else if fields.last().0@ == name {
        Some(fields.last().1)
    } else {
        find_field(fields.drop_last(), name)
    }
}

/// What the rules derive, as pairs that must flow and diagnostics to report.
pub type Derived = (Seq<(Value, Use)>, Seq<DiagView>);

/// A diagnostic without notes.
pub open spec fn plain_diag(span: Span, message: Seq<char>) -> DiagView {
    (span, message, Seq::empty())
}

/// The message for a tuple of `got` elements where `expected` were wanted.
pub open spec fn wrong_count(got: nat, expected: nat) -> Seq<char> {
    "Wrong number of arguments: "@ + decimal(got) + " expected "@ + decimal(expected)
}

/// A record flowing into a record use: each used field flows from the field of
/// the same name, or the whole use is looked up in the prototype, or it is missing.
pub open spec fn record_rule(
    fields: Seq<(String, Value)>,
    proto: Option<Value>,
    uses: Seq<(String, Use)>,
    rhs_id: ID,
    lhs_span: Span,
) -> Derived
    decreases uses.len(),
{
    if uses.len() == 0 {
        (Seq::empty(), Seq::empty())
    } else {
        let prev = record_rule(fields, proto, uses.drop_last(), rhs_id, lhs_span);
        let name = uses.last().0;
        let u = uses.last().1;
        match find_field(fields, name@) {
            Some(ty) => (prev.0.push((ty, u)), prev.1),
            None => match proto {
                Some(p) => (prev.0.push((p, Use(rhs_id))), prev.1),
                None => (prev.0, prev.1.push(plain_diag(lhs_span, "Object has no field: "@ + name@))),
            },
        }
    }
}

/// The subtyping rules: what a value of shape `lhs` flowing into a use of shape
/// `rhs` (the node `rhs_id`) requires to flow in turn, and what it reports.
pub open spec fn rule(lhs: VTypeHead, rhs: UTypeHead, rhs_id: ID, ls: Span, rs: Span) -> Derived {
    let none: Derived = (Seq::empty(), Seq::empty());
    match (lhs, rhs) {
        (_, UTypeHead::UError) => none,
        (VTypeHead::VError, _) => none,
        (VTypeHead::VBool, UTypeHead::UBool) => none,
        (VTypeHead::VNumber, UTypeHead::UNumber) => none,
        (VTypeHead::VString, UTypeHead::UString) => none,
        (VTypeHead::VKeyword, UTypeHead::UKeyword) => none,
        (VTypeHead::VStruct { fields, proto }, UTypeHead::UStruct { fields: uses }) => record_rule(
            fields@,
            proto,
            uses@,
            rhs_id,
            ls,
        ),
        (VTypeHead::VList { item }, UTypeHead::UApplication { args, ret, index, .. }) => (
            seq![(item, ret), (args, index.1)],
            Seq::empty(),
        ),
        (VTypeHead::VTuple { items }, UTypeHead::UApplication { args, ret, index, .. }) => match index.0 {
            None => (
                seq![(args, index.1)],
                seq![plain_diag(ls, "Expected int literal to access tuple element"@)],
            ),
            Some(i) => if i >= items@.len() {
                (
                    seq![(args, index.1)],
                    seq![
                        plain_diag(
                            ls,
                            "Tuple index out of bounds: "@ + decimal(i as nat) + " expected "@
                                + decimal(items@.len()),
                        ),
                    ],
                )
            } else {
                (seq![(args, index.1), (items@[i as int], ret)], Seq::empty())
            },
        },
        (VTypeHead::VFunc { pattern, ret }, UTypeHead::UApplication { args, ret: ret_use, .. }) => (
            seq![(args, pattern), (ret, ret_use)],
            Seq::empty(),
        ),
        (VTypeHead::VStruct { fields, proto }, UTypeHead::UApplication { args, ret, field, .. }) => match field.0 {
            None => (Seq::empty(), seq![plain_diag(rs, "Expected field name"@)]),
            Some(name) => match find_field(fields@, name@) {
                Some(ty) => (seq![(args, field.1), (ty, ret)], Seq::empty()),
                None => match proto {
                    Some(p) => (seq![(p, Use(rhs_id))], Seq::empty()),
                    None => (Seq::empty(), seq![plain_diag(rs, "Undefined field: "@ + name@)]),
                },
            },
        },
        (VTypeHead::VTuple { items }, UTypeHead::UList { items: args, min_len, max_len }) => (
            items@.map_values(|v: Value| (v, args)),
            (if items@.len() < min_len {
                seq![plain_diag(ls, wrong_count(items@.len(), min_len as nat))]
            } else {
                Seq::empty()
            }) + (match max_len {
                Some(m) => if items@.len() > m {
                    seq![plain_diag(ls, wrong_count(items@.len(), m as nat))]
                } else {
                    Seq::empty()
                },
                None => Seq::empty(),
            }),
        ),
        (VTypeHead::VFunc { pattern, ret }, UTypeHead::UFunc { pattern: args, ret: ret_use }) => (
            seq![(args, pattern), (ret, ret_use)],
            Seq::empty(),
        ),
        (VTypeHead::VList { item }, UTypeHead::UList { items: args, .. }) => (
            seq![(item, args)],
            Seq::empty(),
        ),
        (VTypeHead::VList { item }, UTypeHead::UTuple { items: args }) => (
            args@.map_values(|u: Use| (item, u)),
            Seq::empty(),
        ),
        (VTypeHead::VTuple { items }, UTypeHead::UTuple { items: args }) => (
            Seq::new(
                if items@.len() < args@.len() {
                    items@.len()
                } else {
                    args@.len()
                },
                |i: int| (items@[i], args@[i]),
            ),
            if items@.len() != args@.len() {
                seq![plain_diag(ls, wrong_count(items@.len(), args@.len()))]
            } else {
                Seq::empty()
            },
        ),
        (VTypeHead::VRef { write, read }, UTypeHead::URef { write: write_use, read: read_use }) => {
            if write is None && read is None {
                (Seq::empty(), seq![plain_diag(rs, "Reference is not readable or writable"@)])
            } else {
                let r: Derived = match read_use {
                    Some(ru) => match read {
                        Some(rv) => (seq![(rv, ru)], Seq::empty()),
                        None => (Seq::empty(), seq![plain_diag(rs, "Reference is not readable"@)]),
                    },
                    None => none,
                };
                let w: Derived = match write_use {
                    Some(wu) => match write {
                        Some(wv) => (seq![(wu, wv)], Seq::empty()),
                        None => (Seq::empty(), seq![plain_diag(rs, "Reference is not writable"@)]),
                    },
                    None => none,
                };
                (r.0 + w.0, r.1 + w.1)
            }
        },
        _ => (
            Seq::empty(),
            seq![
                (
                    rs,
                    "Incompatible types"@,
                    seq![
                        ("Expected "@ + uhead_name(rhs), Some(rs)),
                        ("But got "@ + vhead_name(lhs), Some(ls)),
                    ],
                ),
            ],
        ),
    }
}

/// Whether a value shape is one of the primitive kinds.
pub open spec fn is_primitive_value(h: VTypeHead) -> bool {
    h is VBool || h is VNumber || h is VString || h is VKeyword
}

/// Whether a use shape is one of the primitive kinds.
pub open spec fn is_primitive_use(h: UTypeHead) -> bool {
    h is UBool || h is UNumber || h is UString || h is UKeyword
}

/// Whether a primitive value shape and a primitive use shape are of the same kind.
pub open spec fn same_primitive(l: VTypeHead, r: UTypeHead) -> bool {
    ||| l is VBool && r is UBool
    ||| l is VNumber && r is UNumber
    ||| l is VString && r is UString
    ||| l is VKeyword && r is UKeyword
}

/// A primitive value flowing into a primitive use asks for nothing more to flow;
/// it is accepted silently exactly when both are of the same kind, and otherwise
/// reports one "Incompatible types" diagnostic at the use, noting the kind
/// expected there and the kind given.
pub proof fn law_primitive_heads(lhs: VTypeHead, rhs: UTypeHead, rhs_id: ID, ls: Span, rs: Span)
    requires
        is_primitive_value(lhs),
        is_primitive_use(rhs),
    ensures
        rule(lhs, rhs, rhs_id, ls, rs).0.len() == 0,
        same_primitive(lhs, rhs) <==> rule(lhs, rhs, rhs_id, ls, rs).1.len() == 0,
        !same_primitive(lhs, rhs) ==> rule(lhs, rhs, rhs_id, ls, rs).1 == seq![
            (
                rs,
                "Incompatible types"@,
                seq![("Expected "@ + uhead_name(rhs), Some(rs)), ("But got "@ + vhead_name(lhs), Some(ls))],
            ),
        ],
{
}

/// An error on either side absorbs the flow: nothing more flows and nothing is
/// reported.
pub proof fn law_error_absorbs(lhs: VTypeHead, rhs: UTypeHead, rhs_id: ID, ls: Span, rs: Span)
    requires
        lhs is VError || rhs is UError,
    ensures
        rule(lhs, rhs, rhs_id, ls, rs).0.len() == 0,
        rule(lhs, rhs, rhs_id, ls, rs).1.len() == 0,
{
}

/// A function flowing into a function use: the argument given at the use flows
/// into the function's parameter, and the function's result flows into what the
/// use expects of it; nothing is reported.
pub proof fn law_function_flow(pattern: Use, ret: Value, arg: Value, ret_use: Use, rhs_id: ID, ls: Span, rs: Span)
    ensures
        rule(VTypeHead::VFunc { pattern, ret }, UTypeHead::UFunc { pattern: arg, ret: ret_use }, rhs_id, ls, rs)
            == (seq![(arg, pattern), (ret, ret_use)], Seq::<DiagView>::empty()),
{
}

/// What the rules derive from node `a` flowing into node `b`: something only
/// when `a` is a value shape and `b` a use shape.
pub open spec fn derived(types: Seq<TypeNode>, a: ID, b: ID) -> Derived {
    if a < types.len() && b < types.len() {
        match (types[a as int], types[b as int]) {
            (TypeNode::Value(lh, ls), TypeNode::Use(uh, us)) => rule(lh, uh, b, ls, us),
            _ => (Seq::empty(), Seq::empty()),
        }
    } else {
        (Seq::empty(), Seq::empty())
    }
}

/// The pairs of nodes that must flow once `a` flows into `b`.
pub open spec fn required(types: Seq<TypeNode>, a: ID, b: ID) -> Seq<(ID, ID)> {
    derived(types, a, b).0.map_values(|p: (Value, Use)| (p.0.0, p.1.0))
}

/// `e` holds every pair that the rules require of the pairs it holds.
pub open spec fn closed_under_rules(types: Seq<TypeNode>, e: Set<(ID, ID)>) -> bool {
    forall|a: ID, b: ID, k: int|
        #![trigger e.contains((a, b)), required(types, a, b)[k]]
        e.contains((a, b)) && 0 <= k < required(types, a, b).len() ==> e.contains(required(types, a, b)[k])
}

/// A relation that a flow of `l` into `r` may end in: it holds what flowed before and
/// `(l, r)`, and it is transitively closed and closed under the rules.
pub open spec fn admissible(types: Seq<TypeNode>, base: Set<(ID, ID)>, l: ID, r: ID, s: Set<(ID, ID)>) -> bool {
    &&& base.subset_of(s)
    &&& s.contains((l, r))
    &&& transitive(s)
    &&& closed_under_rules(types, s)
}

/// The diagnostics reported for the pairs `order`, in that order.
pub open spec fn reported(types: Seq<TypeNode>, order: Seq<(ID, ID)>) -> Seq<DiagView>
    decreases order.len(),
{
    if order.len() == 0 {
        Seq::empty()
    } else {
        reported(types, order.drop_last()) + derived(types, order.last().0, order.last().1).1
    }
}

/// Adding a node keeps a relation over the existing nodes closed under the rules.
pub proof fn lemma_closed_extend(types: Seq<TypeNode>, node: TypeNode, e: Set<(ID, ID)>)
    requires
        closed_under_rules(types, e),
        forall|a: ID, b: ID| #[trigger] e.contains((a, b)) ==> a < types.len() && b < types.len(),
    ensures
        closed_under_rules(types.push(node), e),
{
    assert forall|a: ID, b: ID, k: int|
        e.contains((a, b)) && 0 <= k < required(types.push(node), a, b).len() implies e.contains(
        #[trigger] required(types.push(node), a, b)[k],
    ) by {
        assert(types.push(node)[a as int] == types[a as int]);
        assert(types.push(node)[b as int] == types[b as int]);
        assert(derived(types.push(node), a, b) == derived(types, a, b));
        assert(required(types.push(node), a, b) == required(types, a, b));
    }
}

/// The least relation closed under transitivity that holds `e` and `(l, r)`
/// lies within every transitively closed relation that holds both.
pub proof fn lemma_closure_with_least(e: Set<(ID, ID)>, l: ID, r: ID, s: Set<(ID, ID)>)
    requires
        e.subset_of(s),
        s.contains((l, r)),
        transitive(s),
    ensures
        closure_with(e, l, r).subset_of(s),
{
    assert forall|p: (ID, ID)| closure_with(e, l, r).contains(p) implies s.contains(p) by {
        if !e.contains(p) {
            if p.0 != l {
                assert(s.contains((p.0, l)));
                assert(s.contains((p.0, r)));
            }
            if p.1 != r {
                assert(s.contains((r, p.1)));
            }
        }
    }
}

proof fn lemma_find_field_member<T>(fields: Seq<(String, T)>, name: Seq<char>)
    ensures
        find_field(fields, name) matches Some(v) ==> exists|k: int| 0 <= k < fields.len() && fields[k].1 == v,
    decreases fields.len(),
{
    if fields.len() > 0 && fields.last().0@ != name {
        lemma_find_field_member(fields.drop_last(), name);
        if let Some(v) = find_field(fields, name) {
            let k = choose|k: int| 0 <= k < fields.drop_last().len() && fields.drop_last()[k].1 == v;
            assert(fields[k].1 == v);
        }
    }
}

proof fn lemma_record_rule_bounded(
    fields: Seq<(String, Value)>,
    proto: Option<Value>,
    uses: Seq<(String, Use)>,
    rhs_id: ID,
    ls: Span,
    n: nat,
)
    requires
        forall|k: int| 0 <= k < fields.len() ==> (#[trigger] fields[k]).1.0 < n,
        proto matches Some(p) ==> p.0 < n,
        forall|k: int| 0 <= k < uses.len() ==> (#[trigger] uses[k]).1.0 < n,
        rhs_id < n,
    ensures
        forall|k: int|
            0 <= k < record_rule(fields, proto, uses, rhs_id, ls).0.len() ==> (#[trigger] record_rule(
                fields,
                proto,
                uses,
                rhs_id,
                ls,
            ).0[k]).0.0 < n && record_rule(fields, proto, uses, rhs_id, ls).0[k].1.0 < n,
    decreases uses.len(),
{
    if uses.len() > 0 {
        lemma_record_rule_bounded(fields, proto, uses.drop_last(), rhs_id, ls, n);
        lemma_find_field_member(fields, uses.last().0@);
        assert(uses.last() == uses[uses.len() - 1]);
        let prev = record_rule(fields, proto, uses.drop_last(), rhs_id, ls);
        let cur = record_rule(fields, proto, uses, rhs_id, ls);
        if let Some(ty) = find_field(fields, uses.last().0@) {
            let j = choose|j: int| 0 <= j < fields.len() && fields[j].1 == ty;
            assert(fields[j].1.0 < n);
            assert(cur.0 == prev.0.push((ty, uses.last().1)));
        }
        assert forall|k: int| 0 <= k < cur.0.len() implies (#[trigger] cur.0[k]).0.0 < n && cur.0[k].1.0 < n by {
            if k < prev.0.len() {
                assert(cur.0[k] == prev.0[k]);
            }
        }
    }
}

/// Every pair the rules derive from two nodes names existing nodes.
proof fn lemma_derived_bounded(types: Seq<TypeNode>, a: ID, b: ID)
    requires
        refs_below(types, types.len()),
    ensures
        forall|k: int|
            0 <= k < derived(types, a, b).0.len() ==> (#[trigger] derived(types, a, b).0[k]).0.0
                < types.len() && derived(types, a, b).0[k].1.0 < types.len(),
{
    let n = types.len();
    if a < n && b < n {
        if let (TypeNode::Value(lh, ls), TypeNode::Use(uh, us)) = (types[a as int], types[b as int]) {
            assert forall|k: int| 0 <= k < vhead_ids(lh).len() implies #[trigger] vhead_ids(lh)[k] < n by {
                assert(node_ids(types[a as int]) == vhead_ids(lh));
                assert(node_ids(types[a as int])[k] < n);
            }
            assert forall|k: int| 0 <= k < uhead_ids(uh).len() implies #[trigger] uhead_ids(uh)[k] < n by {
                assert(node_ids(types[b as int]) == uhead_ids(uh));
                assert(node_ids(types[b as int])[k] < n);
            }
            let d = rule(lh, uh, b, ls, us);
            match (lh, uh) {
                (_, UTypeHead::UError) => {
                    assert forall|k: int| 0 <= k < d.0.len() implies (#[trigger] d.0[k]).0.0 < n && d.0[k].1.0 < n by {}
                },
                (VTypeHead::VError, _) => {
                    assert forall|k: int| 0 <= k < d.0.len() implies (#[trigger] d.0[k]).0.0 < n && d.0[k].1.0 < n by {}
                },
                (VTypeHead::VStruct { fields, proto }, UTypeHead::UStruct { fields: uses }) => {
                    assert forall|k: int| 0 <= k < fields@.len() implies (#[trigger] fields@[k]).1.0 < n by {
                        assert(vhead_ids(lh)[k] == fields@[k].1.0);
                    }
                    if let Some(p) = proto {
                        assert(vhead_ids(lh)[fields@.len() as int] == p.0);
                    }
                    assert forall|k: int| 0 <= k < uses@.len() implies (#[trigger] uses@[k]).1.0 < n by {
                        assert(uhead_ids(uh)[k] == uses@[k].1.0);
                    }
                    lemma_record_rule_bounded(fields@, proto, uses@, b, ls, n);
                    assert forall|k: int| 0 <= k < d.0.len() implies (#[trigger] d.0[k]).0.0 < n && d.0[k].1.0 < n by {}
                },
                (VTypeHead::VTuple { items }, UTypeHead::UApplication { args, ret, index, .. }) => {
                    if let Some(i) = index.0 {
                        if i < items@.len() {
                            assert(vhead_ids(lh)[i as int] == items@[i as int].0);
                        }
                    }
                    assert(uhead_ids(uh)[0] == args.0);
                    assert(uhead_ids(uh)[1] == ret.0);
                    assert(uhead_ids(uh)[3] == index.1.0);
                    assert forall|k: int| 0 <= k < d.0.len() implies (#[trigger] d.0[k]).0.0 < n && d.0[k].1.0 < n by {}
                },
                (VTypeHead::VStruct { fields, proto }, UTypeHead::UApplication { args, ret, field, .. }) => {
                    if let Some(name) = field.0 {
                        lemma_find_field_member(fields@, name@);
                        if let Some(ty) = find_field(fields@, name@) {
                            let k = choose|k: int| 0 <= k < fields@.len() && fields@[k].1 == ty;
                            assert(vhead_ids(lh)[k] == fields@[k].1.0);
                        }
                    }
                    if let Some(p) = proto {
                        assert(vhead_ids(lh)[vhead_ids(lh).len() - 1] == p.0);
                    }
                    assert(uhead_ids(uh)[0] == args.0);
                    assert(uhead_ids(uh)[1] == ret.0);
                    assert(uhead_ids(uh)[2] == field.1.0);
                    assert forall|k: int| 0 <= k < d.0.len() implies (#[trigger] d.0[k]).0.0 < n && d.0[k].1.0 < n by {}
                },
                (VTypeHead::VTuple { items }, UTypeHead::UList { items: args, .. }) => {
                    assert(uhead_ids(uh)[0] == args.0);
                    assert forall|k: int| 0 <= k < items@.len() implies (#[trigger] items@[k]).0 < n by {
                        assert(vhead_ids(lh)[k] == items@[k].0);
                    }
                    assert forall|k: int| 0 <= k < d.0.len() implies (#[trigger] d.0[k]).0.0 < n && d.0[k].1.0 < n by {}
                },
                (VTypeHead::VList { item }, UTypeHead::UTuple { items: args }) => {
                    assert(vhead_ids(lh)[0] == item.0);
                    assert forall|k: int| 0 <= k < args@.len() implies (#[trigger] args@[k]).0 < n by {
                        assert(uhead_ids(uh)[k] == args@[k].0);
                    }
                    assert forall|k: int| 0 <= k < d.0.len() implies (#[trigger] d.0[k]).0.0 < n && d.0[k].1.0 < n by {}
                },
                (VTypeHead::VTuple { items }, UTypeHead::UTuple { items: args }) => {
                    assert forall|k: int| 0 <= k < items@.len() implies (#[trigger] items@[k]).0 < n by {
                        assert(vhead_ids(lh)[k] == items@[k].0);
                    }
                    assert forall|k: int| 0 <= k < args@.len() implies (#[trigger] args@[k]).0 < n by {
                        assert(uhead_ids(uh)[k] == args@[k].0);
                    }
                    assert forall|k: int| 0 <= k < d.0.len() implies (#[trigger] d.0[k]).0.0 < n && d.0[k].1.0 < n by {}
                },
                (VTypeHead::VRef { write, read }, UTypeHead::URef { write: wu, read: ru }) => {
                    if let Some(w) = write {
                        assert(vhead_ids(lh)[0] == w.0);
                    }
                    if let Some(r) = read {
                        assert(vhead_ids(lh)[vhead_ids(lh).len() - 1] == r.0);
                    }
                    if let Some(w) = wu {
                        assert(uhead_ids(uh)[0] == w.0);
                    }
                    if let Some(r) = ru {
                        assert(uhead_ids(uh)[uhead_ids(uh).len() - 1] == r.0);
                    }
                    assert forall|k: int| 0 <= k < d.0.len() implies (#[trigger] d.0[k]).0.0 < n && d.0[k].1.0 < n by {}
                },
                (VTypeHead::VList { item }, UTypeHead::UApplication { args, ret, index, .. }) => {
                    assert(vhead_ids(lh)[0] == item.0);
                    assert(uhead_ids(uh)[0] == args.0);
                    assert(uhead_ids(uh)[1] == ret.0);
                    assert(uhead_ids(uh)[3] == index.1.0);
                    assert forall|k: int| 0 <= k < d.0.len() implies (#[trigger] d.0[k]).0.0 < n && d.0[k].1.0 < n by {}
                },
                (VTypeHead::VFunc { pattern, ret }, UTypeHead::UApplication { args, ret: ret_use, .. }) => {
                    assert(vhead_ids(lh)[0] == pattern.0);
                    assert(vhead_ids(lh)[1] == ret.0);
                    assert(uhead_ids(uh)[0] == args.0);
                    assert(uhead_ids(uh)[1] == ret_use.0);
                    assert forall|k: int| 0 <= k < d.0.len() implies (#[trigger] d.0[k]).0.0 < n && d.0[k].1.0 < n by {}
                },
                (VTypeHead::VFunc { pattern, ret }, UTypeHead::UFunc { pattern: args, ret: ret_use }) => {
                    assert(vhead_ids(lh)[0] == pattern.0);
                    assert(vhead_ids(lh)[1] == ret.0);
                    assert(uhead_ids(uh)[0] == args.0);
                    assert(uhead_ids(uh)[1] == ret_use.0);
                    assert forall|k: int| 0 <= k < d.0.len() implies (#[trigger] d.0[k]).0.0 < n && d.0[k].1.0 < n by {}
                },
                (VTypeHead::VList { item }, UTypeHead::UList { items: args, .. }) => {
                    assert(vhead_ids(lh)[0] == item.0);
                    assert(uhead_ids(uh)[0] == args.0);
                    assert forall|k: int| 0 <= k < d.0.len() implies (#[trigger] d.0[k]).0.0 < n && d.0[k].1.0 < n by {}
                },
                _ => {
                    assert(vhead_ids(lh).len() >= 0);
                    assert forall|k: int| 0 <= k < d.0.len() implies (#[trigger] d.0[k]).0.0 < n && d.0[k].1.0 < n by {}
                },
            }
            assert(derived(types, a, b) == d);
        }
    }
}

/// The node given for `name` in `fields`: the last entry with that name.
fn find_field_exec<T: Copy>(fields: &Vec<(String, T)>, name: &String) -> (res: Option<T>)
    ensures
        res == find_field(fields@, name@),
        res matches Some(v) ==> exists|k: int| 0 <= k < fields@.len() && fields@[k].1 == v,
{
    let mut i = fields.len();
    assert(fields@.subrange(0, i as int) =~= fields@);
    while i > 0
        invariant
            i <= fields@.len(),
            find_field(fields@, name@) == find_field(fields@.subrange(0, i as int), name@),
        decreases i,
    {
        let ghost s = fields@.subrange(0, i as int);
        if fields[i - 1].0.eq(name) {
            return Some(fields[i - 1].1);
        }
        proof {
            assert(s.drop_last() =~= fields@.subrange(0, i - 1));
        }
        i = i - 1;
    }
    None
}

/// The message for a tuple of `got` elements where `expected` were wanted.
fn wrong_count_message(got: usize, expected: usize) -> (res: String)
    ensures
        res@ == wrong_count(got as nat, expected as nat),
{
    let mut m = String::from_str("Wrong number of arguments: ");
    push_decimal(&mut m, got);
    m.append(" expected ");
    push_decimal(&mut m, expected);
    m
}

impl TypeCheckerCore {
    /// Applies the subtyping rules to a value of shape `lhs` (node `lhs_id`) flowing
    /// into a use of shape `rhs` (node `rhs_id`): appends the pairs that must flow
    /// to `out` and the problems found to `diagnostics`.
    pub fn check_heads(
        lhs: &VTypeHead,
        rhs: &UTypeHead,
        lhs_id: ID,
        rhs_id: ID,
        lhs_span: Span,
        rhs_span: Span,
        out: &mut Vec<(Value, Use)>,
        diagnostics: &mut Diagnostics,
    )
        ensures
            final(out)@ == old(out)@ + rule(*lhs, *rhs, rhs_id, lhs_span, rhs_span).0,
            final(diagnostics)@ == old(diagnostics)@ + rule(*lhs, *rhs, rhs_id, lhs_span, rhs_span).1,
    {
        let ghost d = rule(*lhs, *rhs, rhs_id, lhs_span, rhs_span);
        match (lhs, rhs) {
            (_, UTypeHead::UError) => {
                assert(out@ =~= old(out)@ + d.0);
                assert(diagnostics@ =~= old(diagnostics)@ + d.1);
                return;
            },
            (VTypeHead::VError, _) => {
                assert(out@ =~= old(out)@ + d.0);
                assert(diagnostics@ =~= old(diagnostics)@ + d.1);
                return;
            },
            _ => {},
        }
        match (lhs, rhs) {
            (VTypeHead::VBool, UTypeHead::UBool)
            | (VTypeHead::VNumber, UTypeHead::UNumber)
            | (VTypeHead::VString, UTypeHead::UString)
            | (VTypeHead::VKeyword, UTypeHead::UKeyword) => {
                assert(out@ =~= old(out)@ + d.0);
                assert(diagnostics@ =~= old(diagnostics)@ + d.1);
            },
            (VTypeHead::VStruct { fields, proto }, UTypeHead::UStruct { fields: fields_use }) => {
                let n = fields_use.len();
                for i in 0..n
                    invariant
                        n == fields_use@.len(),
                        out@ == old(out)@ + record_rule(
                            fields@,
                            *proto,
                            fields_use@.subrange(0, i as int),
                            rhs_id,
                            lhs_span,
                        ).0,
                        diagnostics@ == old(diagnostics)@ + record_rule(
                            fields@,
                            *proto,
                            fields_use@.subrange(0, i as int),
                            rhs_id,
                            lhs_span,
                        ).1,
                {
                    let ghost prefix = fields_use@.subrange(0, i as int);
                    let ghost next = fields_use@.subrange(0, i + 1);
                    proof {
                        assert(next.drop_last() =~= prefix);
                        assert(next.last() == fields_use@[i as int]);
                    }
                    let field_name = &fields_use[i].0;
                    let field_use = fields_use[i].1;
                    if let Some(field_ty) = find_field_exec(fields, field_name) {
                        out.push((field_ty, field_use));
                    } else if let Some(p) = proto {
                        out.push((*p, Use(rhs_id)));
                    } else {
                        diagnostics.add(lhs_span, concat2("Object has no field: ", field_name.as_str()));
                    }
                    assert(out@ =~= old(out)@ + record_rule(fields@, *proto, next, rhs_id, lhs_span).0);
                    assert(diagnostics@ =~= old(diagnostics)@ + record_rule(
                        fields@,
                        *proto,
                        next,
                        rhs_id,
                        lhs_span,
                    ).1);
                }
                assert(fields_use@.subrange(0, n as int) =~= fields_use@);
            },
            (VTypeHead::VList { item }, UTypeHead::UApplication { args, ret, index, .. }) => {
                out.push((*item, *ret));
                out.push((*args, index.1));
                assert(out@ =~= old(out)@ + d.0);
                assert(diagnostics@ =~= old(diagnostics)@ + d.1);
            },
            (VTypeHead::VTuple { items }, UTypeHead::UApplication { args, ret, index, .. }) => {
                out.push((*args, index.1));
                match index.0 {
                    None => {
                        diagnostics.add(lhs_span, String::from_str("Expected int literal to access tuple element"));
                    },
                    Some(i) => {
                        if i >= items.len() {
                            let mut m = String::from_str("Tuple index out of bounds: ");
                            push_decimal(&mut m, i);
                            m.append(" expected ");
                            push_decimal(&mut m, items.len());
                            diagnostics.add(lhs_span, m);
                        } else {
                            out.push((items[i], *ret));
                        }
                    },
                }
                assert(out@ =~= old(out)@ + d.0);
                assert(diagnostics@ =~= old(diagnostics)@ + d.1);
            },
            (VTypeHead::VFunc { pattern, ret }, UTypeHead::UApplication { args, ret: ret_use, .. }) => {
                out.push((*args, *pattern));
                out.push((*ret, *ret_use));
                assert(out@ =~= old(out)@ + d.0);
                assert(diagnostics@ =~= old(diagnostics)@ + d.1);
            },
            (VTypeHead::VStruct { fields, proto }, UTypeHead::UApplication { args, ret, field, .. }) => {
                match &field.0 {
                    None => {
                        diagnostics.add(rhs_span, String::from_str("Expected field name"));
                    },
                    Some(name) => {
                        if let Some(field_ty) = find_field_exec(fields, name) {
                            out.push((*args, field.1));
                            out.push((field_ty, *ret));
                        } else if let Some(p) = proto {
                            out.push((*p, Use(rhs_id)));
                        } else {
                            diagnostics.add(rhs_span, concat2("Undefined field: ", name.as_str()));
                        }
                    },
                }
                assert(out@ =~= old(out)@ + d.0);
                assert(diagnostics@ =~= old(diagnostics)@ + d.1);
            },
            (VTypeHead::VTuple { items }, UTypeHead::UList { items: args, min_len, max_len }) => {
                if items.len() < *min_len {
                    diagnostics.add(lhs_span, wrong_count_message(items.len(), *min_len));
                }
                let ghost mid = diagnostics@;
                if let Some(m) = max_len {
                    if items.len() > *m {
                        diagnostics.add(lhs_span, wrong_count_message(items.len(), *m));
                    }
                }
                assert(diagnostics@ =~= old(diagnostics)@ + d.1);
                let n = items.len();
                for i in 0..n
                    invariant
                        n == items@.len(),
                        out@ == old(out)@ + items@.subrange(0, i as int).map_values(|v: Value| (v, *args)),
                {
                    out.push((items[i], *args));
                    assert(out@ =~= old(out)@ + items@.subrange(0, i + 1).map_values(
                        |v: Value| (v, *args),
                    ));
                }
                assert(items@.subrange(0, n as int) =~= items@);
            },
            (VTypeHead::VFunc { pattern, ret }, UTypeHead::UFunc { pattern: args, ret: ret_use }) => {
                out.push((*args, *pattern));
                out.push((*ret, *ret_use));
                assert(out@ =~= old(out)@ + d.0);
                assert(diagnostics@ =~= old(diagnostics)@ + d.1);
            },
            (VTypeHead::VList { item }, UTypeHead::UList { items: args, .. }) => {
                out.push((*item, *args));
                assert(out@ =~= old(out)@ + d.0);
                assert(diagnostics@ =~= old(diagnostics)@ + d.1);
            },
            (VTypeHead::VList { item }, UTypeHead::UTuple { items: args }) => {
                let n = args.len();
                for i in 0..n
                    invariant
                        n == args@.len(),
                        out@ == old(out)@ + args@.subrange(0, i as int).map_values(|u: Use| (*item, u)),
                {
                    out.push((*item, args[i]));
                    assert(out@ =~= old(out)@ + args@.subrange(0, i + 1).map_values(
                        |u: Use| (*item, u),
                    ));
                }
                assert(args@.subrange(0, n as int) =~= args@);
                assert(diagnostics@ =~= old(diagnostics)@ + d.1);
            },
            (VTypeHead::VTuple { items }, UTypeHead::UTuple { items: args }) => {
                if items.len() != args.len() {
                    diagnostics.add(lhs_span, wrong_count_message(items.len(), args.len()));
                }
                assert(diagnostics@ =~= old(diagnostics)@ + d.1);
                let n = if items.len() < args.len() {
                    items.len()
                } else {
                    args.len()
                };
                for i in 0..n
                    invariant
                        n <= items@.len(),
                        n <= args@.len(),
                        out@ == old(out)@ + Seq::new(i as nat, |k: int| (items@[k], args@[k])),
                {
                    out.push((items[i], args[i]));
                    assert(out@ =~= old(out)@ + Seq::new((i + 1) as nat, |k: int| (items@[k], args@[k])));
                }
                assert(out@ =~= old(out)@ + d.0);
            },
            (VTypeHead::VRef { write, read }, UTypeHead::URef { write: write_use, read: read_use }) => {
                if write.is_none() && read.is_none() {
                    diagnostics.add(rhs_span, String::from_str("Reference is not readable or writable"));
                    assert(out@ =~= old(out)@ + d.0);
                    assert(diagnostics@ =~= old(diagnostics)@ + d.1);
                    return;
                }
                if let Some(ru) = read_use {
                    if let Some(rv) = read {
                        out.push((*rv, *ru));
                    } else {
                        diagnostics.add(rhs_span, String::from_str("Reference is not readable"));
                    }
                }
                if let Some(wu) = write_use {
                    if let Some(wv) = write {
                        out.push((*wu, *wv));
                    } else {
                        diagnostics.add(rhs_span, String::from_str("Reference is not writable"));
                    }
                }
                assert(out@ =~= old(out)@ + d.0);
                assert(diagnostics@ =~= old(diagnostics)@ + d.1);
            },
            _ => {
                diagnostics.add_with_extras(
                    rhs_span,
                    String::from_str("Incompatible types"),
                    (concat2("Expected ", rhs.name()), Some(rhs_span)),
                    (concat2("But got ", lhs.name()), Some(lhs_span)),
                );
                assert(out@ =~= old(out)@ + d.0);
                assert(diagnostics@ =~= old(diagnostics)@ + d.1);
            },
        }
    }
}


/// The pairs of node indices named by pairs of producers and consumers.
pub open spec fn id_pairs(s: Seq<(Value, Use)>) -> Seq<(ID, ID)> {
    s.map_values(|p: (Value, Use)| (p.0.0, p.1.0))
}

/// The pairs the rules ask for when the pairs `s` are checked from the last to
/// the first.
pub open spec fn rev_pending(types: Seq<TypeNode>, s: Seq<(ID, ID)>) -> Seq<(Value, Use)>
    decreases s.len(),
{
    if s.len() == 0 {
        Seq::empty()
    } else {
        derived(types, s.last().0, s.last().1).0 + rev_pending(types, s.drop_last())
    }
}

/// The diagnostics reported when the pairs `s` are checked from the last to
/// the first.
pub open spec fn rev_reported(types: Seq<TypeNode>, s: Seq<(ID, ID)>) -> Seq<DiagView>
    decreases s.len(),
{
    if s.len() == 0 {
        Seq::empty()
    } else {
        derived(types, s.last().0, s.last().1).1 + rev_reported(types, s.drop_last())
    }
}

/// The state of the flowing work: the successors and the predecessors of each
/// node, the flows still to make (the last one first), and the diagnostics.
pub type FlowState = (Seq<Seq<ID>>, Seq<Seq<ID>>, Seq<(Value, Use)>, Seq<DiagView>);

/// One step of the flowing work: the last pending flow is linked in the index;
/// the pairs that became linked are checked from the last reported to the first,
/// each adding the flows its rule asks for and the problems it finds.
pub open spec fn flow_step(types: Seq<TypeNode>, s: FlowState) -> FlowState {
    let p = s.2.last();
    let lr = link_result((s.0, s.1, seq![(p.0.0, p.1.0)], Seq::empty()));
    (lr.0, lr.1, s.2.drop_last() + rev_pending(types, lr.3), s.3 + rev_reported(types, lr.3))
}

/// The state once no flow is pending, if at most `fuel` steps lead there.
pub open spec fn flow_run(types: Seq<TypeNode>, s: FlowState, fuel: nat) -> Option<FlowState>
    decreases fuel,
{
    if s.2.len() == 0 {
        Some(s)
    } else if fuel == 0 {
        None
    } else {
        flow_run(types, flow_step(types, s), (fuel - 1) as nat)
    }
}

/// After one more step of the flowing work, the run from the start and the run
/// from the current state still agree.
proof fn lemma_flow_run_step(types: Seq<TypeNode>, init: FlowState, cur: FlowState, next: FlowState, k: nat)
    requires
        forall|j: nat| #[trigger] flow_run(types, cur, j) == flow_run(types, init, k + j),
        cur.2.len() > 0,
        flow_step(types, cur) == next,
    ensures
        forall|j: nat| #[trigger] flow_run(types, next, j) == flow_run(types, init, (k + 1) + j),
{
    assert forall|j: nat| #[trigger] flow_run(types, next, j) == flow_run(types, init, (k + 1) + j) by {
        assert(flow_run(types, cur, j + 1) == flow_run(types, init, k + (j + 1)));
        assert(flow_run(types, cur, (j + 1) as nat) == flow_run(types, flow_step(types, cur), j));
    }
}

impl TypeCheckerCore {
    /// Makes `lhs` flow into `rhs`: links them, closes the flow relation again under
    /// transitivity and under the subtyping rules, and reports the problems the rules
    /// find, once per newly linked pair.
    #[verifier::rlimit(60)]
    pub fn flow(&mut self, lhs: Value, rhs: Use, diagnostics: &mut Diagnostics)
        requires
            old(self).wf(),
            old(self).has(lhs.0),
            old(self).has(rhs.0),
        ensures
            final(self).wf(),
            final(self).nodes() == old(self).nodes(),
            admissible(old(self).nodes(), old(self).flows(), lhs.0, rhs.0, final(self).flows()),
            forall|s: Set<(ID, ID)>|
                #[trigger] admissible(old(self).nodes(), old(self).flows(), lhs.0, rhs.0, s) ==> final(self).flows().subset_of(s),
            exists|order: Seq<(ID, ID)>|
                {
                    &&& order.no_duplicates()
                    &&& order.to_set() == final(self).flows().difference(old(self).flows())
                    &&& final(diagnostics)@ == old(diagnostics)@ + reported(old(self).nodes(), order)
                },
            exists|k: nat|
                flow_run(
                    old(self).nodes(),
                    (old(self).index().down_seqs(), old(self).index().up_seqs(), seq![(lhs, rhs)], old(diagnostics)@),
                    k,
                ) == Some(
                    (
                        final(self).index().down_seqs(),
                        final(self).index().up_seqs(),
                        Seq::<(Value, Use)>::empty(),
                        final(diagnostics)@,
                    ),
                ),
    {
        proof {
            self.lemma_reveal();
        }
        let ghost types = self.types@;
        let ghost n = types.len();
        let ghost e0 = self.r.edges();
        let ghost d0 = diagnostics@;
        let ghost l = lhs.0;
        let ghost r = rhs.0;
        let mut pending_edges: Vec<(Value, Use)> = Vec::new();
        pending_edges.push((lhs, rhs));
        let mut type_pairs_to_check: Vec<(ID, ID)> = Vec::new();
        let ghost mut checked: Seq<(ID, ID)> = Seq::empty();
        let ghost finit: FlowState = (self.r.down_seqs(), self.r.up_seqs(), seq![(lhs, rhs)], d0);
        let ghost mut kf: nat = 0;
        proof {
            assert(pending_edges@ =~= seq![(lhs, rhs)]);
            self.r.lemma_wf();
            assert(id_pairs(pending_edges@)[0] == (l, r));
            assert(checked.to_set() =~= self.r.edges().difference(e0));
        }
        while pending_edges.len() > 0
            invariant
                self.r.wf(),
                self.r.len() == n,
                self.types@ == types,
                n == types.len(),
                refs_below(types, n as nat),
                l < n,
                r < n,
                e0.subset_of(self.r.edges()),
                type_pairs_to_check@.len() == 0,
                forall|k: int|
                    0 <= k < pending_edges@.len() ==> (#[trigger] pending_edges@[k]).0.0 < n
                        && pending_edges@[k].1.0 < n,
                forall|a: ID, b: ID, k: int|
                    #![trigger self.r.edges().contains((a, b)), required(types, a, b)[k]]
                    self.r.edges().contains((a, b)) && 0 <= k < required(types, a, b).len() ==> self.r.edges().contains(
                        required(types, a, b)[k],
                    ) || id_pairs(pending_edges@).contains(required(types, a, b)[k]),
                self.r.edges().contains((l, r)) || id_pairs(pending_edges@).contains((l, r)),
                forall|s: Set<(ID, ID)>|
                    #[trigger] admissible(types, e0, l, r, s) ==> self.r.edges().subset_of(s) && forall|k: int|
                        0 <= k < pending_edges@.len() ==> s.contains(#[trigger] id_pairs(pending_edges@)[k]),
                checked.no_duplicates(),
                checked.to_set() == self.r.edges().difference(e0),
                diagnostics@ == d0 + reported(types, checked),
                forall|j: nat|
                    #[trigger] flow_run(types, (self.r.down_seqs(), self.r.up_seqs(), pending_edges@, diagnostics@), j)
                        == flow_run(types, finit, kf + j),
            decreases n * n - self.r.edge_count(), pending_edges@.len(),
        {
            proof {
                self.r.lemma_wf();
            }
            let ghost fcur: FlowState = (self.r.down_seqs(), self.r.up_seqs(), pending_edges@, diagnostics@);
            let ghost pend_before = pending_edges@;
            let ghost e1 = self.r.edges();
            let ghost c1 = self.r.edge_count();
            let (x, y) = pending_edges.pop().unwrap();
            proof {
                assert(pend_before == pending_edges@.push((x, y)));
                assert(pend_before[pend_before.len() - 1] == (x, y));
                assert(id_pairs(pend_before) == id_pairs(pending_edges@).push((x.0, y.0)));
            }
            let ghost pend_popped = pending_edges@;
            let ghost diag0 = diagnostics@;
            proof {
                assert(type_pairs_to_check@ =~= Seq::<(ID, ID)>::empty());
            }
            self.r.add_edge(x.0, y.0, &mut type_pairs_to_check);
            let ghost e2 = self.r.edges();
            let ghost plen = pending_edges@.len();
            let ghost new_pairs = type_pairs_to_check@;
            let ghost da = self.r.down_seqs();
            let ghost ua = self.r.up_seqs();
            proof {
                let sx: LinkState = (fcur.0, fcur.1, seq![(x.0, y.0)], Seq::empty());
                let tx: LinkState = (da, ua, Seq::empty(), new_pairs);
                let kk = choose|kk: nat| link_run(sx, kk) == Some(tx);
                lemma_link_result(sx, kk, tx);
                assert(link_result(sx) == tx);
                assert(pending_edges@ + rev_pending(types, new_pairs) == pend_popped + rev_pending(types, new_pairs));
                assert(diagnostics@ + rev_reported(types, new_pairs) == diag0 + rev_reported(types, new_pairs));
            }
            proof {
                self.r.lemma_wf();
                assert(type_pairs_to_check@.subrange(0, 0) =~= Seq::<(ID, ID)>::empty());
                assert(new_pairs =~= type_pairs_to_check@.subrange(0, type_pairs_to_check@.len() as int));
                assert forall|k: int| 0 <= k < new_pairs.len() implies e2.contains(#[trigger] new_pairs[k]) by {
                    assert(new_pairs.to_set().contains(new_pairs[k]));
                }
                lemma_closure_with_transitive(e1, x.0, y.0);
                assert(e2.contains((x.0, y.0)));
                assert forall|a: ID, b: ID, k: int|
                    e2.contains((a, b)) && !type_pairs_to_check@.contains((a, b)) && 0 <= k < required(
                        types,
                        a,
                        b,
                    ).len() implies e2.contains(#[trigger] required(types, a, b)[k]) || id_pairs(pending_edges@).contains(
                        required(types, a, b)[k],
                    ) by {
                    if !e1.contains((a, b)) {
                        assert(new_pairs.to_set().contains((a, b)));
                    }
                    let q = required(types, a, b)[k];
                    if !e1.contains(q) && q != (x.0, y.0) {
                        assert(id_pairs(pend_before).contains(q));
                        let m = choose|m: int| 0 <= m < id_pairs(pend_before).len() && id_pairs(pend_before)[m] == q;
                        assert(m < pending_edges@.len());
                        assert(id_pairs(pending_edges@)[m] == q);
                    }
                }
                assert(e2.contains((l, r)) || id_pairs(pending_edges@).contains((l, r))) by {
                    if !e1.contains((l, r)) && (l, r) != (x.0, y.0) {
                        let m = choose|m: int| 0 <= m < id_pairs(pend_before).len() && id_pairs(pend_before)[m] == (l, r);
                        assert(id_pairs(pending_edges@)[m] == (l, r));
                    }
                }
                assert forall|s: Set<(ID, ID)>| #[trigger] admissible(types, e0, l, r, s) implies e2.subset_of(s)
                    && forall|k: int|
                    0 <= k < pending_edges@.len() ==> s.contains(#[trigger] id_pairs(pending_edges@)[k]) by {
                    assert(id_pairs(pend_before)[pend_before.len() - 1] == (x.0, y.0));
                    lemma_closure_with_least(e1, x.0, y.0, s);
                    assert forall|k: int| 0 <= k < pending_edges@.len() implies s.contains(
                        #[trigger] id_pairs(pending_edges@)[k],
                    ) by {
                        assert(id_pairs(pending_edges@)[k] == id_pairs(pend_before)[k]);
                    }
                }
                assert forall|k: int| 0 <= k < type_pairs_to_check@.len() implies !checked.contains(
                    #[trigger] type_pairs_to_check@[k],
                ) by {
                    let q = type_pairs_to_check@[k];
                    assert(new_pairs.to_set().contains(q));
                    if checked.contains(q) {
                        assert(checked.to_set().contains(q));
                    }
                }
            }
            while type_pairs_to_check.len() > 0
                invariant
                    self.r.wf(),
                    self.r.len() == n,
                    self.types@ == types,
                    n == types.len(),
                    refs_below(types, n as nat),
                    self.r.edges() == e2,
                    e0.subset_of(e2),
                    forall|k: int|
                        0 <= k < pending_edges@.len() ==> (#[trigger] pending_edges@[k]).0.0 < n
                            && pending_edges@[k].1.0 < n,
                    type_pairs_to_check@.no_duplicates(),
                    forall|k: int| 0 <= k < type_pairs_to_check@.len() ==> e2.contains(#[trigger] type_pairs_to_check@[k]),
                    forall|a: ID, b: ID, k: int|
                        #![trigger e2.contains((a, b)), required(types, a, b)[k]]
                        e2.contains((a, b)) && !type_pairs_to_check@.contains((a, b)) && 0 <= k < required(
                            types,
                            a,
                            b,
                        ).len() ==> e2.contains(required(types, a, b)[k]) || id_pairs(pending_edges@).contains(
                            required(types, a, b)[k],
                        ),
                    e2.contains((l, r)) || id_pairs(pending_edges@).contains((l, r)),
                    forall|s: Set<(ID, ID)>|
                        #[trigger] admissible(types, e0, l, r, s) ==> e2.subset_of(s) && forall|k: int|
                            0 <= k < pending_edges@.len() ==> s.contains(#[trigger] id_pairs(pending_edges@)[k]),
                    checked.no_duplicates(),
                    forall|k: int| 0 <= k < type_pairs_to_check@.len() ==> !checked.contains(#[trigger] type_pairs_to_check@[k]),
                    checked.to_set().union(type_pairs_to_check@.to_set()) == e2.difference(e0),
                    diagnostics@ == d0 + reported(types, checked),
                    new_pairs.len() == 0 ==> pending_edges@.len() == plen,
                    type_pairs_to_check@.len() <= new_pairs.len(),
                    self.r.down_seqs() == da,
                    self.r.up_seqs() == ua,
                    pending_edges@ + rev_pending(types, type_pairs_to_check@) == pend_popped + rev_pending(
                        types,
                        new_pairs,
                    ),
                    diagnostics@ + rev_reported(types, type_pairs_to_check@) == diag0 + rev_reported(
                        types,
                        new_pairs,
                    ),
                decreases type_pairs_to_check@.len(),
            {
                let ghost tp_before = type_pairs_to_check@;
                let ghost pend_mid = pending_edges@;
                let ghost diag_mid = diagnostics@;
                let (a, b) = type_pairs_to_check.pop().unwrap();
                proof {
                    assert(tp_before == type_pairs_to_check@.push((a, b)));
                    assert(tp_before[tp_before.len() - 1] == (a, b));
                    assert(e2.contains((a, b)));
                    self.r.lemma_wf();
                }
                if let TypeNode::Value(lhs_head, lhs_span) = &self.types[a] {
                    if let TypeNode::Use(rhs_head, rhs_span) = &self.types[b] {
                        Self::check_heads(
                            lhs_head,
                            rhs_head,
                            a,
                            b,
                            *lhs_span,
                            *rhs_span,
                            &mut pending_edges,
                            diagnostics,
                        );
                    }
                }
                proof {
                    let dv = derived(types, a, b);
                    assert(pending_edges@ == pend_mid + dv.0);
                    assert(diagnostics@ == diag_mid + dv.1);
                    assert(tp_before.drop_last() =~= type_pairs_to_check@);
                    assert(rev_pending(types, tp_before) == dv.0 + rev_pending(types, type_pairs_to_check@));
                    assert(rev_reported(types, tp_before) == dv.1 + rev_reported(types, type_pairs_to_check@));
                    assert(pending_edges@ + rev_pending(types, type_pairs_to_check@) =~= pend_mid + rev_pending(
                        types,
                        tp_before,
                    ));
                    assert(diagnostics@ + rev_reported(types, type_pairs_to_check@) =~= diag_mid + rev_reported(
                        types,
                        tp_before,
                    ));
                    lemma_derived_bounded(types, a, b);
                    assert(id_pairs(pending_edges@) =~= id_pairs(pend_mid) + required(types, a, b));
                    let old_checked = checked;
                    checked = checked.push((a, b));
                    assert(checked.drop_last() == old_checked);
                    assert(diagnostics@ =~= d0 + reported(types, checked));
                    assert forall|i: int, j: int|
                        0 <= i < checked.len() && 0 <= j < checked.len() && i != j implies checked[i] != checked[j] by {
                        if i == checked.len() - 1 {
                            assert(old_checked.contains(checked[j]));
                        } else if j == checked.len() - 1 {
                            assert(old_checked.contains(checked[i]));
                        }
                    }
                    old_checked.lemma_push_to_set_commute((a, b));
                    type_pairs_to_check@.lemma_push_to_set_commute((a, b));
                    assert(checked.to_set().union(type_pairs_to_check@.to_set()) =~= old_checked.to_set().union(
                        tp_before.to_set(),
                    ));
                    assert forall|k: int| 0 <= k < type_pairs_to_check@.len() implies !checked.contains(
                        #[trigger] type_pairs_to_check@[k],
                    ) by {
                        assert(tp_before[k] == type_pairs_to_check@[k]);
                        if type_pairs_to_check@[k] == (a, b) {
                            assert(tp_before[k] == tp_before[tp_before.len() - 1]);
                        }
                    }
                    assert forall|i: int, j: int|
                        0 <= i < type_pairs_to_check@.len() && 0 <= j < type_pairs_to_check@.len() && i != j implies type_pairs_to_check@[i]
                        != type_pairs_to_check@[j] by {
                        assert(tp_before[i] == type_pairs_to_check@[i]);
                        assert(tp_before[j] == type_pairs_to_check@[j]);
                    }
                    assert forall|k: int| 0 <= k < pending_edges@.len() implies (#[trigger] pending_edges@[k]).0.0
                        < n && pending_edges@[k].1.0 < n by {
                        if k >= pend_mid.len() {
                            assert(pending_edges@[k] == dv.0[k - pend_mid.len()]);
                        }
                    }
                    assert forall|p: (ID, ID)| id_pairs(pend_mid).contains(p) implies id_pairs(pending_edges@).contains(p) by {
                        let k = choose|k: int| 0 <= k < id_pairs(pend_mid).len() && id_pairs(pend_mid)[k] == p;
                        assert(id_pairs(pending_edges@)[k] == p);
                    }
                    assert forall|c: ID, e: ID, k: int|
                        e2.contains((c, e)) && !type_pairs_to_check@.contains((c, e)) && 0 <= k < required(
                            types,
                            c,
                            e,
                        ).len() implies e2.contains(#[trigger] required(types, c, e)[k]) || id_pairs(
                        pending_edges@,
                    ).contains(required(types, c, e)[k]) by {
                        if (c, e) == (a, b) {
                            assert(id_pairs(pending_edges@)[pend_mid.len() + k] == required(types, a, b)[k]);
                        } else {
                            if tp_before.contains((c, e)) {
                                let m = choose|m: int| 0 <= m < tp_before.len() && tp_before[m] == (c, e);
                                assert(m < type_pairs_to_check@.len());
                                assert(type_pairs_to_check@[m] == (c, e));
                            }
                        }
                    }
                    assert forall|s: Set<(ID, ID)>| #[trigger] admissible(types, e0, l, r, s) implies e2.subset_of(s)
                        && forall|k: int|
                        0 <= k < pending_edges@.len() ==> s.contains(#[trigger] id_pairs(pending_edges@)[k]) by {
                        assert forall|k: int| 0 <= k < pending_edges@.len() implies s.contains(
                            #[trigger] id_pairs(pending_edges@)[k],
                        ) by {
                            if k < pend_mid.len() {
                                assert(id_pairs(pending_edges@)[k] == id_pairs(pend_mid)[k]);
                            } else {
                                assert(s.contains((a, b)));
                                assert(id_pairs(pending_edges@)[k] == required(types, a, b)[k - pend_mid.len()]);
                            }
                        }
                    }
                }
            }
            proof {
                self.r.lemma_wf();
                assert(type_pairs_to_check@.to_set() =~= Set::<(ID, ID)>::empty());
                assert(checked.to_set() =~= e2.difference(e0));
                if new_pairs.len() > 0 {
                    assert(c1 < self.r.edge_count());
                }
                assert(type_pairs_to_check@ =~= Seq::<(ID, ID)>::empty());
                assert(pending_edges@ =~= pend_popped + rev_pending(types, new_pairs));
                assert(diagnostics@ =~= diag0 + rev_reported(types, new_pairs));
                assert(fcur.2.last() == (x, y));
                assert(pend_popped =~= fcur.2.drop_last());
                let sx: LinkState = (fcur.0, fcur.1, seq![(x.0, y.0)], Seq::empty());
                assert(link_result(sx) == (da, ua, Seq::<(ID, ID)>::empty(), new_pairs));
                let next: FlowState = (self.r.down_seqs(), self.r.up_seqs(), pending_edges@, diagnostics@);
                assert(flow_step(types, fcur) == next);
                lemma_flow_run_step(types, finit, fcur, next, kf);
                kf = kf + 1;
            }
        }
        proof {
            self.r.lemma_wf();
            let e = self.r.edges();
            assert(closed_under_rules(types, e)) by {
                assert forall|a: ID, b: ID, k: int|
                    e.contains((a, b)) && 0 <= k < required(types, a, b).len() implies e.contains(
                    #[trigger] required(types, a, b)[k],
                ) by {
                    assert(!id_pairs(pending_edges@).contains(required(types, a, b)[k]));
                }
            }
            assert(!id_pairs(pending_edges@).contains((l, r)));
            assert(admissible(types, e0, l, r, e));
            assert(checked.to_set() == e.difference(e0));
            let fin: FlowState = (self.r.down_seqs(), self.r.up_seqs(), pending_edges@, diagnostics@);
            assert(pending_edges@ =~= Seq::<(Value, Use)>::empty());
            assert(flow_run(types, fin, 0) == flow_run(types, finit, kf + 0));
            self.lemma_reveal();
        }
    }
}

} // verus!
