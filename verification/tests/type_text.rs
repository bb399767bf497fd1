use project_s::simple_types::format::{Type, Types};
use project_s::simple_types::{Literal, TypeId};

#[test]
fn printed_types_text() {
    let mut t = Types::new();
    let num = t.add_type(Type::Primitive { name: "number".to_string() });
    let a = t.add_type(Type::Variable { name: "'a".to_string() });
    let f = t.add_type(Type::Function { lhs: num, rhs: a });
    let u = t.add_type(Type::Union { items: vec![num, a] });
    let i = t.add_type(Type::Intersection { items: vec![num, a] });
    let r = t.add_type(Type::Record { fields: vec![("x".to_string(), num), ("y".to_string(), a)] });
    let tup = t.add_type(Type::Tuple { items: vec![num, a] });
    let l = t.add_type(Type::List { item: num });
    let rm = t.add_type(Type::Ref { write: Some(num), read: Some(num) });
    let rw = t.add_type(Type::Ref { write: Some(a), read: Some(num) });
    let ro = t.add_type(Type::Ref { write: None, read: Some(num) });
    let wo = t.add_type(Type::Ref { write: Some(a), read: None });
    let bad = t.add_type(Type::Ref { write: None, read: None });
    let rec = t.add_type(Type::Recursive { name: "'r".to_string(), body: f });
    let k = t.add_type(Type::Literal { value: Literal::Keyword("k".to_string()) });
    let app = t.add_type(Type::Applicative { arg: num, ret: a, first_arg: None });
    let top = t.add_type(Type::Top);
    let bot = t.add_type(Type::Bottom);
    let err = t.add_type(Type::Error);
    assert_eq!(t.type_text(f), "number → 'a");
    assert_eq!(t.type_text(u), "number ∨ 'a");
    assert_eq!(t.type_text(i), "number ∧ 'a");
    assert_eq!(t.type_text(r), "{x: number, y: 'a}");
    assert_eq!(t.type_text(tup), "(number, 'a)");
    assert_eq!(t.type_text(l), "[number]");
    assert_eq!(t.type_text(rm), "refmut number");
    assert_eq!(t.type_text(rw), "ref number mut 'a");
    assert_eq!(t.type_text(ro), "ref number");
    assert_eq!(t.type_text(wo), "mut 'a");
    assert_eq!(t.type_text(bad), "<invalid ref>");
    assert_eq!(t.type_text(rec), "number → 'a as 'r");
    assert_eq!(t.type_text(k), ":k");
    assert_eq!(t.type_text(app), "number -?-> 'a");
    assert_eq!(t.type_text(top), "⊤");
    assert_eq!(t.type_text(bot), "⊥");
    assert_eq!(t.type_text(err), "error");
    let mut buf = String::from("t: ");
    t.fmt(TypeId(u.0), &mut buf);
    assert_eq!(buf, "t: number ∨ 'a");
}
