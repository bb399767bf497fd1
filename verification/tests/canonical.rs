use project_s::simple_types::Literal;
use project_s::types::canonical::{CanonId, Canonical, CanonicalBuilder};
use project_s::types::printing::print_canon;

fn prim(name: &str) -> Canonical {
    Canonical::Primitive(name.to_string(), None)
}

#[test]
fn the_builder_stores_each_type_once() {
    let mut b = CanonicalBuilder::new();
    let n = b.add(prim("number"));
    let s = b.add(prim("string"));
    assert_eq!(b.add(prim("number")), n);
    assert_eq!(n, CanonId(0));
    assert_eq!(s, CanonId(1));
    let l1 = b.add(Canonical::List { item: n, span: None });
    let l2 = b.add(Canonical::List { item: n, span: None });
    assert_eq!(l1, l2);
    assert!(b.get(l1).same(&Canonical::List { item: n, span: None }));
    assert!(!b.get(l1).same(&Canonical::List { item: s, span: None }));
    assert_eq!(b.get(s).span(), None);
}

fn text(b: CanonicalBuilder, id: CanonId) -> String {
    let table = b.finish();
    let mut out = String::new();
    print_canon(&mut out, id, &table);
    out
}

#[test]
fn types_are_printed() {
    let mut b = CanonicalBuilder::new();
    let n = b.add(prim("number"));
    let s = b.add(prim("string"));
    let f = b.add(Canonical::Func { pattern: n, ret: s, span: None });
    let t = b.add(Canonical::Tuple { items: vec![n, s, f], span: None });
    assert_eq!(text(b.clone(), f), "number -> string");
    assert_eq!(text(b.clone(), t), "(number, string, number -> string)");
    let mut b2 = b.clone();
    let or = b2.add(Canonical::Or(vec![n, s], None));
    let and1 = b2.add(Canonical::And(vec![n], None));
    let list = b2.add(Canonical::List { item: or, span: None });
    let rec = b2.add(Canonical::Record { fields: vec![("a".to_string(), n), ("b".to_string(), list)], proto: None, span: None });
    let var = b2.add(Canonical::Any(Some(27), None));
    let rec_ty = b2.add(Canonical::As(0, rec, None));
    let lit = b2.add(Canonical::Literal(Literal::Keyword("ok".to_string()), None));
    let rm = b2.add(Canonical::Reference { read: Some(n), write: Some(n), span: None });
    let rw = b2.add(Canonical::Reference { read: Some(n), write: Some(s), span: None });
    let r = b2.add(Canonical::Reference { read: Some(s), write: None, span: None });
    let w = b2.add(Canonical::Reference { read: None, write: Some(s), span: None });
    let app = b2.add(Canonical::Applicable { args: vec![n, s], ret: lit, span: None });
    let any = b2.add(Canonical::Any(None, None));
    let todo = b2.add(Canonical::Todo("objects".to_string(), None));
    let hole = b2.add(Canonical::Wildcard(None));
    let err = b2.add(Canonical::Error(None));
    let all = vec![or, and1, list, rec, var, rec_ty, lit, rm, rw, r, w, app, any, todo, hole, err];
    let table = b2.finish();
    let shown: Vec<String> = all
        .into_iter()
        .map(|id| {
            let mut out = String::new();
            print_canon(&mut out, id, &table);
            out
        })
        .collect();
    assert_eq!(
        shown,
        vec![
            "number | string",
            "and<number>",
            "[number | string]",
            "{a: number, b: [number | string]}",
            "'b2",
            "({a: number, b: [number | string]}) as 'a",
            ":ok",
            "refmut<number>",
            "ref<number, mut string>",
            "ref<string>",
            "mut<string>",
            "Applicable(number, string -> :ok)",
            "Any",
            "TODO: objects",
            "_",
            "Error",
        ]
    );
}
