use project_s::simple_types::{PartOf, VarGenerator};
use project_s::ast::{SExp, ASTS};
use project_s::types::printing::variable_letters;
use project_s::diagnostics::Diagnostics;
use project_s::simple_types::{
    InferedType, InferedTypeId, InferedTypeScheme, InferedPolymorphicType, Literal, Polarity, TypeGen,
    VarId, Vars,
};
use project_s::source::{Sources, Span};
use project_s::types::checker::{TypeCheckerCore, TypeNode, UTypeHead, Use, VTypeHead, Value};
use project_s::types::envs::Envs;
use project_s::types::reachability::Reachability;

fn span() -> Span {
    let (_sources, id) = Sources::single("t.s", "");
    Span::new_empty(id)
}

#[test]
fn reachability_is_transitive() {
    let mut r = Reachability::new();
    let a = r.add_node();
    let b = r.add_node();
    let c = r.add_node();
    let mut out = Vec::new();
    r.add_edge(a, b, &mut out);
    assert_eq!(out, vec![(a, b)]);
    out.clear();
    r.add_edge(b, c, &mut out);
    assert_eq!(out.len(), 2);
    assert!(out.contains(&(b, c)));
    assert!(out.contains(&(a, c)));
    out.clear();
    r.add_edge(a, c, &mut out);
    assert!(out.is_empty());
    assert_eq!(r.successors(a), &[b, c]);
    assert_eq!(r.predecessors(c), &[b, a]);
    assert_eq!(r.all_linked(b), vec![a, c]);
}

#[test]
fn matching_heads_report_nothing() {
    let sp = span();
    let mut core = TypeCheckerCore::new();
    let mut diags = Diagnostics::new();
    let n = core.number(sp);
    let u = core.number_use(sp);
    core.flow(n, u, &mut diags);
    assert!(!diags.has_errors());
}

#[test]
fn incompatible_heads_are_reported() {
    let sp = span();
    let mut core = TypeCheckerCore::new();
    let mut diags = Diagnostics::new();
    let b = core.bool(sp);
    let u = core.number_use(sp);
    core.flow(b, u, &mut diags);
    assert_eq!(diags.diags.len(), 1);
    let d = &diags.diags[0];
    assert_eq!(d.message, "Incompatible types");
    assert_eq!(d.extras.len(), 2);
    assert_eq!(d.extras[0].message, "Expected number");
    assert_eq!(d.extras[1].message, "But got bool");
}

#[test]
fn flows_pass_through_variables() {
    let sp = span();
    let mut core = TypeCheckerCore::new();
    let mut diags = Diagnostics::new();
    let (v, vu) = core.var(sp);
    let s = core.string(sp);
    let k = core.keyword_use(sp);
    core.flow(s, vu, &mut diags);
    assert!(!diags.has_errors());
    core.flow(v, k, &mut diags);
    assert_eq!(diags.diags.len(), 1);
    assert_eq!(diags.diags[0].extras[0].message, "Expected keyword");
    assert_eq!(diags.diags[0].extras[1].message, "But got string");
}

#[test]
fn function_arguments_flow_backwards() {
    let sp = span();
    let mut core = TypeCheckerCore::new();
    let mut diags = Diagnostics::new();
    // a function from numbers to strings
    let param = core.number_use(sp);
    let ret = core.string(sp);
    let f = core.func(param, ret, sp);
    // applied to a boolean, its result used as a string
    let arg = core.bool(sp);
    let expect = core.string_use(sp);
    let call = core.func_use(arg, expect, sp);
    core.flow(f, call, &mut diags);
    assert_eq!(diags.diags.len(), 1);
    assert_eq!(diags.diags[0].extras[0].message, "Expected number");
    assert_eq!(diags.diags[0].extras[1].message, "But got bool");
}

#[test]
fn tuple_length_mismatch() {
    let sp = span();
    let mut core = TypeCheckerCore::new();
    let mut diags = Diagnostics::new();
    let one = core.number(sp);
    let two = core.number(sp);
    let t = core.tuple(vec![one, two], sp);
    let only = core.number_use(sp);
    let tu = core.tuple_use(vec![only], sp);
    core.flow(t, tu, &mut diags);
    assert_eq!(diags.diags.len(), 1);
    assert_eq!(diags.diags[0].message, "Wrong number of arguments: 2 expected 1");
}

#[test]
fn missing_record_field() {
    let sp = span();
    let mut core = TypeCheckerCore::new();
    let mut diags = Diagnostics::new();
    let n = core.number(sp);
    let obj = core.obj(vec![("a".to_string(), n)], None, sp);
    let (_v, vu) = core.var(sp);
    let access = core.obj_use(vec![("b".to_string(), vu)], sp);
    core.flow(obj, access, &mut diags);
    assert_eq!(diags.diags.len(), 1);
    assert_eq!(diags.diags[0].message, "Object has no field: b");
    let (_w, wu) = core.var(sp);
    let field = core.obj_field_access_use(("a".to_string(), wu), sp);
    let before = diags.diags.len();
    core.flow(obj, field, &mut diags);
    assert_eq!(diags.diags.len(), before + 1);
    assert_eq!(diags.diags[before].extras[0].message, "Expected object_access");
}

#[test]
fn heads_have_names() {
    assert_eq!(VTypeHead::VBool.name(), "bool");
    assert_eq!(UTypeHead::UString.name(), "string");
    let core = TypeCheckerCore::new();
    assert_eq!(core.len(), 0);
    let _ = (Value(0), Use(0));
    let _ = TypeNode::Var(span());
}

#[test]
fn envs_scopes() {
    let mut envs: Envs<u32> = Envs::new();
    envs.set("x", 1);
    assert_eq!(envs.get("x"), Some(&1));
    let point = envs.push();
    envs.set("x", 2);
    envs.set("y", 3);
    assert_eq!(envs.get("x"), Some(&2));
    assert_eq!(envs.get("y"), Some(&3));
    envs.restore(point);
    assert_eq!(envs.get("x"), Some(&1));
    assert_eq!(envs.get("y"), None);
    let _ = envs.push();
    envs.set("z", 4);
    let popped = envs.pop().unwrap();
    assert_eq!(popped, vec![("z".to_string(), 4)]);
    assert_eq!(envs.get("z"), None);
    let depth = envs.save();
    envs.restore(depth);
    assert_eq!(envs.get("x"), Some(&1));
}

#[test]
fn type_gen_gives_one_variable_per_parameter() {
    let mut tg = TypeGen::new();
    assert_eq!(tg.var(3, InferedTypeId(10)), InferedTypeId(10));
    assert_eq!(tg.var(3, InferedTypeId(11)), InferedTypeId(10));
    assert_eq!(tg.var(4, InferedTypeId(12)), InferedTypeId(12));
    let mut vars = Vars::new();
    assert_eq!(vars.var("a", InferedTypeId(1)), InferedTypeId(1));
    assert_eq!(vars.var("b", InferedTypeId(2)), InferedTypeId(2));
    assert_eq!(vars.var("a", InferedTypeId(3)), InferedTypeId(1));
}

#[test]
fn polarity_and_inferred_types() {
    assert_eq!(Polarity::Positive.negate(), Polarity::Negative);
    assert_eq!(Polarity::Negative.negate().negate(), Polarity::Negative);
    let sp = span();
    let f = InferedType::Function { lhs: InferedTypeId(1), rhs: InferedTypeId(2), span: sp };
    assert_eq!(f.ids(), vec![InferedTypeId(1), InferedTypeId(2)]);
    assert_eq!(f.to_string(), "function");
    let r = InferedType::Record {
        fields: vec![("a".to_string(), InferedTypeId(5)), ("b".to_string(), InferedTypeId(6))],
        proto: Some(InferedTypeId(7)),
        span: sp,
    };
    assert_eq!(r.ids(), vec![InferedTypeId(5), InferedTypeId(6), InferedTypeId(7)]);
    let refs = InferedType::Ref { write: None, read: Some(InferedTypeId(8)), span: sp };
    assert_eq!(refs.ids(), vec![InferedTypeId(8)]);
    let m = InferedType::Module {
        members: vec![
            ("a".to_string(), InferedTypeScheme::Monomorphic(InferedTypeId(1))),
            ("b".to_string(), InferedTypeScheme::Polymorphic(InferedPolymorphicType { level: 1, body: InferedTypeId(2) })),
            ("c".to_string(), InferedTypeScheme::Monomorphic(InferedTypeId(3))),
        ],
        span: sp,
    };
    assert_eq!(m.ids(), vec![InferedTypeId(1), InferedTypeId(3)]);
    let app = InferedType::Applicative { arg: InferedTypeId(1), ret: InferedTypeId(2), first_arg: Some(InferedTypeId(9)), span: sp };
    assert_eq!(app.ids(), vec![InferedTypeId(1), InferedTypeId(2)]);
    assert!(InferedType::Variable { id: VarId(0), span: sp }.ids().is_empty());
    let k = InferedType::Literal { value: Literal::Keyword("ok".to_string()), span: sp };
    assert_eq!(k.as_keyword_literal(), Some("ok"));
    assert_eq!(k.to_string(), ":ok");
    let s = InferedType::Literal { value: Literal::String("hi".to_string()), span: sp };
    assert_eq!(s.to_string(), "\"hi\"");
    assert_eq!(s.as_keyword_literal(), None);
    assert_eq!(Literal::Bool(false).to_string(), "false");
    assert_eq!(InferedType::Primitive { name: "number".to_string(), span: sp }.to_string(), "number");
    assert_eq!(InferedType::Error { span: sp }.span(), sp);
}

#[test]
fn sexp_diagnostics_take_the_span_of_the_expression() {
    let sp = span();
    let mut asts = ASTS::new();
    let ast = asts.new_ast_mut();
    let id = ast.add_node(SExp::Symbol("x".to_string()), sp, None);
    let mut d = Diagnostics::new();
    d.add_sexp(&asts, id, "unbound".to_string());
    assert_eq!(d.diags[0].span, sp);
    assert_eq!(d.diags[0].message, "unbound");
}

#[test]
fn names_of_variables_differ() {
    let names: Vec<String> = (0..200).map(variable_letters).collect();
    for i in 0..names.len() {
        for j in (i + 1)..names.len() {
            assert_ne!(names[i], names[j]);
        }
    }
}

#[test]
fn variable_generator_names_in_order_of_meeting() {
    let mut g = VarGenerator::new();
    assert_eq!(g.new_var(VarId(7)), "'a");
    assert_eq!(g.new_var(VarId(3)), "'b");
    assert_eq!(g.new_var(VarId(7)), "'a");
    assert_eq!(g.new_var(VarId(0)), "'c");
    assert_eq!(PartOf::List.into_rest(), PartOf::ListRest);
    assert_eq!(PartOf::Object.into_rest(), PartOf::ObjectRest);
    assert_eq!(PartOf::Nothing.into_rest(), PartOf::Nothing);
}

#[test]
fn popped_scopes_come_sorted_by_name() {
    let mut envs: Envs<u32> = Envs::new();
    let _ = envs.push();
    envs.set("zeta", 1);
    envs.set("alpha", 2);
    envs.set("beta", 3);
    envs.set("zeta", 4);
    envs.set("al", 5);
    let popped = envs.pop().unwrap();
    assert_eq!(
        popped,
        vec![
            ("al".to_string(), 5),
            ("alpha".to_string(), 2),
            ("beta".to_string(), 3),
            ("zeta".to_string(), 4)
        ]
    );
}

#[test]
fn linked_nodes_and_listing() {
    let sp = span();
    let mut core = TypeCheckerCore::new();
    let mut diags = Diagnostics::new();
    let (v, vu) = core.var(sp);
    let n = core.number(sp);
    let u = core.number_use(sp);
    core.flow(n, vu, &mut diags);
    core.flow(v, u, &mut diags);
    let linked = core.all_linked(v.0);
    assert_eq!(linked.len(), 2);
    assert!(matches!(linked[0], TypeNode::Value(VTypeHead::VNumber, _)));
    assert!(matches!(linked[1], TypeNode::Use(UTypeHead::UNumber, _)));
    let listed = core.iter();
    assert_eq!(listed.len(), 3);
    assert_eq!(listed[2].0, 2);
    assert!(matches!(listed[0].1, TypeNode::Var(_)));
    assert_eq!(core.predecessors(u.0).len(), 2);
    assert_eq!(core.successors(n.0).len(), 2);
}

#[test]
fn add_edge_reports_in_worklist_order() {
    let mut r = Reachability::new();
    r.add_node();
    r.add_node();
    r.add_node();
    r.add_edge(0, 1, &mut vec![]);
    let mut out = vec![];
    r.add_edge(1, 2, &mut out);
    assert_eq!(out, vec![(1, 2), (0, 2)]);
    assert_eq!(r.successors(0), &[1, 2]);
    assert_eq!(r.predecessors(2), &[1, 0]);
    assert_eq!(r.successors(1), &[2]);
    // Linking again what is linked changes nothing.
    let mut again = vec![(9, 9)];
    r.add_edge(0, 2, &mut again);
    assert_eq!(again, vec![(9, 9)]);
    assert_eq!(r.successors(0), &[1, 2]);
}

#[test]
fn infered_type_debug_text() {
    let sp = span();
    assert_eq!(InferedType::Error { span: sp }.debug_text(), "Error");
    assert_eq!(InferedType::Variable { id: VarId(12), span: sp }.debug_text(), "Variable { id: VarId(12) }");
    assert_eq!(
        InferedType::Primitive { name: "num\"ber".to_string(), span: sp }.debug_text(),
        format!("Primitive {{ name: {:?} }}", "num\"ber")
    );
    assert_eq!(
        InferedType::Literal { value: Literal::Keyword("k".to_string()), span: sp }.debug_text(),
        "Literal { value: Keyword(\"k\") }"
    );
    assert_eq!(
        InferedType::Literal { value: Literal::Bool(true), span: sp }.debug_text(),
        "Literal { value: Bool(true) }"
    );
    assert_eq!(
        InferedType::Function { lhs: InferedTypeId(1), rhs: InferedTypeId(20), span: sp }.debug_text(),
        "Function { lhs: InferedTypeId(1), rhs: InferedTypeId(20) }"
    );
    assert_eq!(
        InferedType::Applicative { arg: InferedTypeId(1), ret: InferedTypeId(2), first_arg: None, span: sp }.debug_text(),
        "Applicative { arg: InferedTypeId(1), ret: InferedTypeId(2), first_arg: None }"
    );
    assert_eq!(
        InferedType::Tuple { items: vec![InferedTypeId(1), InferedTypeId(2)], span: sp }.debug_text(),
        "Tuple { items: [InferedTypeId(1), InferedTypeId(2)] }"
    );
    assert_eq!(InferedType::Tuple { items: vec![], span: sp }.debug_text(), "Tuple { items: [] }");
    assert_eq!(
        InferedType::Record { fields: vec![("a".to_string(), InferedTypeId(3))], proto: Some(InferedTypeId(4)), span: sp }
            .debug_text(),
        "Record { fields: [(\"a\", InferedTypeId(3))], proto: Some(InferedTypeId(4)) }"
    );
    assert_eq!(InferedType::List { item: InferedTypeId(0), span: sp }.debug_text(), "List { item: InferedTypeId(0) }");
    assert_eq!(
        InferedType::Ref { write: Some(InferedTypeId(5)), read: None, span: sp }.debug_text(),
        "Ref { write: Some(InferedTypeId(5)), read: None }"
    );
    let m = InferedType::Module {
        members: vec![
            ("x".to_string(), InferedTypeScheme::Monomorphic(InferedTypeId(1))),
            ("y".to_string(), InferedTypeScheme::Polymorphic(InferedPolymorphicType { level: 2, body: InferedTypeId(3) })),
        ],
        span: sp,
    };
    assert_eq!(
        m.debug_text(),
        "Module { members: {\"x\": Monomorphic(InferedTypeId(1)), \"y\": Polymorphic(InferedPolymorphicType { level: 2, body: InferedTypeId(3) })} }"
    );
}
