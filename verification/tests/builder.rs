use project_s::ast::{SExp, ASTS};
use project_s::builder::{error, list, quote, rest, string, symbol, Builder};
use project_s::source::{Sources, Span, Spanned};

fn caller() -> Span {
    let (_, id) = Sources::single("<builder>", "");
    Span::new_empty(id)
}

fn symbol_name(e: &SExp) -> Option<&str> {
    match e {
        SExp::Symbol(s) => Some(s.as_str()),
        _ => None,
    }
}

#[test]
fn build_quote_of_keyword() {
    let mut asts = ASTS::new();
    let span = caller();
    let root = quote(symbol("::tag")).build_ast(&mut asts, span);
    assert_eq!(root.span, span);
    let ast = asts.get_ast(root.item);
    assert_eq!(ast.nodes().len(), 3);
    assert_eq!(ast.root_id(), Some(root.item));
    assert_eq!(symbol_name(&ast.nodes()[0].item), Some("quote"));
    assert!(matches!(&ast.nodes()[1].item, SExp::Keyword(k) if k == "tag"));
    match &asts.get(root.item).item {
        SExp::List(items) => {
            assert_eq!(items.len(), 2);
            assert_eq!(symbol_name(&asts.get(items[0]).item), Some("quote"));
        }
        other => panic!("expected a list, got {other:?}"),
    }
}

#[test]
fn build_rest_list_in_order() {
    let mut asts = ASTS::new();
    let span = caller();
    let b = rest("fn", vec![list(), string("text"), error(), symbol("x")]);
    let root = b.build_ast(&mut asts, span);
    let ast = asts.get_ast(root.item);
    // "fn", (), "text", error, x, then the list itself.
    assert_eq!(ast.nodes().len(), 6);
    assert_eq!(symbol_name(&ast.nodes()[0].item), Some("fn"));
    assert!(matches!(&ast.nodes()[1].item, SExp::List(v) if v.is_empty()));
    assert!(matches!(&ast.nodes()[2].item, SExp::String(s) if s == "text"));
    assert!(matches!(&ast.nodes()[3].item, SExp::Error));
    assert_eq!(symbol_name(&ast.nodes()[4].item), Some("x"));
    match &ast.nodes()[5].item {
        SExp::List(items) => assert_eq!(items.len(), 5),
        other => panic!("expected a list, got {other:?}"),
    }
}

#[test]
fn existing_ids_are_not_added_again() {
    let mut asts = ASTS::new();
    let span = caller();
    let first = symbol("a").build_ast(&mut asts, span);
    let mut ast = asts.new_ast();
    let id = Builder::List(vec![Builder::Id(first.item), Builder::Id(first.item)]).assemble_id(&mut ast, span);
    assert_eq!(ast.nodes().len(), 1);
    match &ast.get(id).item {
        SExp::List(items) => assert_eq!(items, &vec![first.item, first.item]),
        other => panic!("expected a list, got {other:?}"),
    }
    let kept = Builder::Spanned(Spanned::new(first.item, span)).assemble_id_with_span(&mut ast, span);
    assert_eq!(kept.item, first.item);
    assert_eq!(ast.nodes().len(), 1);
}

#[test]
fn assemble_does_not_add_the_expression_itself() {
    let mut asts = ASTS::new();
    let mut ast = asts.new_ast();
    let span = caller();
    let sexp = Builder::List(vec![symbol("x")]).assemble(&mut ast, span);
    assert_eq!(ast.nodes().len(), 1);
    assert!(matches!(sexp, SExp::List(v) if v.len() == 1));
    let plain = symbol(":k").assemble_with_span(&mut ast, span);
    assert!(matches!(plain.item, SExp::Keyword(k) if k == "k"));
    assert_eq!(ast.nodes().len(), 1);
}
